use bbg::storage::access::StorageError;
use bbg::storage::content::store::ContentStore;
use bbg::storage::content::verify::Verifier;
use bbg::storage::content::{make_part_key, Error, Particle, Result, Spec, State, Upload};
use bbg::storage::database::{Database, Transaction};
use bbg::storage::table::Table;
use bbg::storage::transfer::{fence_key, transfer_stage_key};

struct Hash(cyber_hemera::Hasher);
impl Hash {
    fn new() -> Self {
        Self(cyber_hemera::Hasher::new())
    }
}
impl Verifier for Hash {
    fn profile(&self) -> Particle {
        [7; 32]
    }
    fn update(&mut self, bytes: &[u8]) -> Result<()> {
        self.0.update(bytes);
        Ok(())
    }
    fn finish(self) -> Result<Particle> {
        Ok(*self.0.finalize().as_bytes())
    }
}

fn upload() -> Upload {
    Upload { namespace: [1; 32], request: [2; 32] }
}

fn spec() -> Spec {
    Spec { particle: *cyber_hemera::hash(b"abcd").as_bytes(), profile: [7; 32], length: 4, part_bytes: 4 }
}

/// Run `f` as one committed transaction on the store's owner.
fn with_owner<F: FnOnce(&mut Transaction<'_>) -> std::result::Result<(), StorageError>>(
    store: ContentStore,
    f: F,
) -> ContentStore {
    let mut db = store.into_database();
    db.transaction(f).unwrap();
    ContentStore::from_database(db)
}

#[test]
fn corrupt_parts_are_rejected_by_verification_and_sealed_reads() {
    let mut store = ContentStore::from_database(Database::new());
    store.begin(upload(), spec()).unwrap();
    store.write_part(upload(), 0, b"abcd").unwrap();
    let mut verification = store.verify(upload(), Hash::new()).unwrap();
    let original = verification.step(&mut store, 1).unwrap().unwrap();
    let key = make_part_key(upload(), 0);
    let mut store = with_owner(store, |tx| tx.put(Table::Parts, &key, b"abce"));
    assert!(matches!(
        store.read_range([1; 32], original.spec.particle, [7; 32], 0, 4),
        Err(Error::Storage(StorageError::Corrupt(_)))
    ));
    let mut verification = store.verify(upload(), Hash::new()).unwrap();
    assert!(matches!(verification.step(&mut store, 1), Err(Error::Storage(StorageError::Corrupt(_)))));
}

#[test]
fn cancelling_a_sparse_huge_upload_visits_only_stored_parts() {
    let mut store = ContentStore::from_database(Database::new());
    let spec = Spec { length: u64::MAX, part_bytes: 1, ..spec() };
    store.begin(upload(), spec).unwrap();
    store.write_part(upload(), u64::MAX - 1, b"x").unwrap();
    assert!(store.cancel(upload(), 1).unwrap());
    let progress = store.progress(upload()).unwrap().unwrap();
    assert_eq!(progress.present_parts, 0);
    assert_eq!(progress.reclaimed_through, u64::MAX);
    assert!(store
        .database()
        .read(Table::Parts, &make_part_key(upload(), u64::MAX - 1), 1)
        .unwrap()
        .is_none());
}

#[test]
fn publication_and_uploads_obey_existing_namespace_and_export_fences() {
    for mode in 0..3 {
        let mut store = ContentStore::from_database(Database::new());
        store.begin(upload(), spec()).unwrap();
        store.write_part(upload(), 0, b"abcd").unwrap();
        let mut store = with_owner(store, |tx| match mode {
            0 => tx.put(Table::Migration, b"status", b"export-v1"),
            1 => tx.put(Table::Migration, &fence_key(&[1; 32]), &[8; 64]),
            _ => tx.put(Table::Migration, &transfer_stage_key(&[1; 32]), &[8; 32]),
        });
        assert_eq!(store.begin(upload(), spec()), Err(Error::Conflict));
        assert_eq!(store.write_part(upload(), 0, b"abcd"), Err(Error::Conflict));
        let mut verification = store.verify(upload(), Hash::new()).unwrap();
        assert_eq!(verification.step(&mut store, 1), Err(Error::Conflict));
        assert_eq!(store.cancel(upload(), 1), Err(Error::Conflict));
    }
}

#[test]
fn begin_retry_answers_the_same_progress_and_changes_nothing() {
    let mut store = ContentStore::from_database(Database::new());
    let first = store.begin(upload(), spec()).unwrap();
    assert_eq!(first.present_parts, 0);
    assert_eq!(first.state, State::Staging);
    let marker = store.database().last_transaction().unwrap();
    assert_eq!(store.begin(upload(), spec()).unwrap(), first);
    assert_eq!(store.database().last_transaction().unwrap(), marker);
    let other = Spec { length: 5, ..spec() };
    assert_eq!(store.begin(upload(), other), Err(Error::Conflict));
}

#[test]
fn part_retry_is_present_and_changes_nothing() {
    let mut store = ContentStore::from_database(Database::new());
    store.begin(upload(), spec()).unwrap();
    store.write_part(upload(), 0, b"abcd").unwrap();
    let marker = store.database().last_transaction().unwrap();
    store.write_part(upload(), 0, b"abcd").unwrap();
    assert_eq!(store.database().last_transaction().unwrap(), marker);
    assert_eq!(store.progress(upload()).unwrap().unwrap().present_parts, 1);
    assert_eq!(store.write_part(upload(), 0, b"abce"), Err(Error::Conflict));
    assert_eq!(store.write_part(upload(), 1, b"abcd"), Err(Error::InvalidRange));
    assert_eq!(store.write_part(upload(), 0, b"abc"), Err(Error::InvalidRange));
}

#[test]
fn sealed_content_reads_back_what_was_written() {
    let mut store = ContentStore::from_database(Database::new());
    store.begin(upload(), spec()).unwrap();
    store.write_part(upload(), 0, b"abcd").unwrap();
    let mut verification = store.verify(upload(), Hash::new()).unwrap();
    let info = verification.step(&mut store, 1).unwrap().unwrap();
    assert_eq!(info.upload, upload());
    assert_eq!(store.read_range([1; 32], info.spec.particle, [7; 32], 0, 4).unwrap(), b"abcd".to_vec());
    assert_eq!(store.read_range([1; 32], info.spec.particle, [7; 32], 1, 2).unwrap(), b"bc".to_vec());
    assert_eq!(store.progress(upload()).unwrap().unwrap().state, State::Sealed);
}

#[test]
fn missing_uploads_and_oversized_parts_are_refused() {
    let mut store = ContentStore::from_database(Database::new());
    assert_eq!(store.write_part(upload(), 0, b"abcd"), Err(Error::Missing));
    assert!(store.progress(upload()).unwrap().is_none());
    let huge = vec![0u8; 1_048_577];
    assert_eq!(
        store.write_part(upload(), 0, &huge),
        Err(Error::Storage(StorageError::Limit("content part bytes")))
    );
    let bad = Spec { part_bytes: 0, ..spec() };
    assert_eq!(
        store.begin(upload(), bad),
        Err(Error::Storage(StorageError::Limit("content part budget")))
    );
}

/// A verifier that records the parts it is handed and reports a fixed particle.
struct Recorder {
    parts: std::rc::Rc<std::cell::RefCell<Vec<Vec<u8>>>>,
    reports: Particle,
}
impl Verifier for Recorder {
    fn profile(&self) -> Particle {
        [7; 32]
    }
    fn update(&mut self, bytes: &[u8]) -> Result<()> {
        self.parts.borrow_mut().push(bytes.to_vec());
        Ok(())
    }
    fn finish(self) -> Result<Particle> {
        Ok(self.reports)
    }
}

fn two_part_spec() -> Spec {
    Spec { particle: *cyber_hemera::hash(b"abcdef").as_bytes(), profile: [7; 32], length: 6, part_bytes: 4 }
}

#[test]
fn parts_are_fed_in_order_and_a_wrong_identity_is_not_sealed() {
    let mut store = ContentStore::from_database(Database::new());
    store.begin(upload(), two_part_spec()).unwrap();
    store.write_part(upload(), 1, b"ef").unwrap();
    store.write_part(upload(), 0, b"abcd").unwrap();
    let parts = std::rc::Rc::new(std::cell::RefCell::new(Vec::new()));
    let recorder = Recorder { parts: parts.clone(), reports: [9; 32] };
    let mut verification = store.verify(upload(), recorder).unwrap();
    assert_eq!(verification.step(&mut store, 1).unwrap(), None);
    assert_eq!(verification.verified_parts(), 1);
    assert_eq!(*parts.borrow(), vec![b"abcd".to_vec()]);
    assert!(matches!(verification.step(&mut store, 5), Err(Error::IdentityMismatch)));
    assert_eq!(*parts.borrow(), vec![b"abcd".to_vec(), b"ef".to_vec()]);
    assert_eq!(store.progress(upload()).unwrap().unwrap().state, State::Staging);
    // The verifier is spent: the session cannot go on.
    assert!(matches!(verification.step(&mut store, 1), Err(Error::Conflict)));
    // A session whose verifier reports the spec's particle seals, all parts at once.
    let honest = Recorder { parts: parts.clone(), reports: two_part_spec().particle };
    let mut verification = store.verify(upload(), honest).unwrap();
    let info = verification.step(&mut store, 8).unwrap().unwrap();
    assert_eq!(verification.verified_parts(), 2);
    assert_eq!(info.upload, upload());
    // A completed session answers again without feeding anything.
    assert_eq!(verification.step(&mut store, 1).unwrap(), Some(info));
    assert_eq!(parts.borrow().len(), 4);
    assert_eq!(store.progress(upload()).unwrap().unwrap().state, State::Sealed);
}

#[test]
fn a_cancelled_upload_is_not_fed_to_the_verifier() {
    let mut store = ContentStore::from_database(Database::new());
    store.begin(upload(), spec()).unwrap();
    store.write_part(upload(), 0, b"abcd").unwrap();
    let parts = std::rc::Rc::new(std::cell::RefCell::new(Vec::new()));
    let mut verification = store.verify(upload(), Recorder { parts: parts.clone(), reports: spec().particle }).unwrap();
    store.cancel(upload(), 16).unwrap();
    assert!(matches!(verification.step(&mut store, 1), Err(Error::Cancelled)));
    assert!(parts.borrow().is_empty());
}

#[test]
fn a_session_opens_only_over_a_complete_upload_of_the_verifier_profile() {
    let mut store = ContentStore::from_database(Database::new());
    assert!(matches!(store.session_spec(upload(), &[7; 32]), Err(Error::Missing)));
    store.begin(upload(), two_part_spec()).unwrap();
    store.write_part(upload(), 0, b"abcd").unwrap();
    assert!(matches!(store.session_spec(upload(), &[7; 32]), Err(Error::Incomplete)));
    assert!(matches!(store.session_spec(upload(), &[8; 32]), Err(Error::ProfileMismatch)));
    store.write_part(upload(), 1, b"ef").unwrap();
    assert_eq!(store.session_spec(upload(), &[7; 32]).unwrap(), two_part_spec());
    assert!(matches!(store.session_spec(upload(), &[8; 32]), Err(Error::ProfileMismatch)));
    store.cancel(upload(), 16).unwrap();
    assert!(matches!(store.session_spec(upload(), &[7; 32]), Err(Error::Cancelled)));
}
