use bbg::storage::application::{make_history_key, ApplicationStore, Error, Head, Particle, Write};
use bbg::storage::access::StorageError;
use bbg::storage::archive::ApplicationArchive;
use bbg::storage::content::store::ContentStore;
use bbg::storage::content::{Spec, Upload};
use bbg::storage::database::Database;
use bbg::storage::table::Table;
use bbg::storage::transfer::{cursor_key, require_complete, Cursor};
use bbg::storage::transfer_source::TransferSource;

fn publish(store: &mut ApplicationStore, namespace: Particle, n: u8) -> Head {
    let expected = store.head(&namespace).unwrap();
    let head = Head { index: expected.map_or(0, |h| h.index + 1), commit: [n; 32] };
    store
        .apply(&Write {
            namespace,
            request: [n; 32],
            fingerprint: [n; 32],
            expected,
            head,
            content: &[(head.commit, vec![1, n])],
            claims: &[],
        })
        .unwrap()
}

fn source() -> ApplicationStore {
    let mut store = ApplicationStore::from_database(Database::new());
    publish(&mut store, [1; 32], 2);
    publish(&mut store, [1; 32], 3);
    store
}

fn sealed(store: ApplicationStore) -> TransferSource {
    let archive = ApplicationArchive::from_database(store.into_database()).unwrap();
    TransferSource::from_archive(archive, [9; 32], [8; 32]).unwrap()
}

fn cursor(target: &ApplicationStore, transfer: &TransferSource) -> Cursor {
    let c = target.database().read(Table::Migration, &cursor_key(&transfer.manifest()), 82).unwrap().unwrap();
    Cursor::decode(&c).unwrap()
}

#[test]
fn broken_receipt_coverage_never_completes() {
    let mut db = source().into_database();
    db.transaction(|tx| tx.remove(Table::History, &make_history_key(&[1; 32], 0))).unwrap();
    let mut transfer = sealed(ApplicationStore::from_database(db));
    let mut target = ApplicationStore::from_database(Database::new());
    assert!(matches!(transfer.stage(&mut target, 32, |_, _, _| Ok(())), Err(Error::Corrupt)));
    assert_ne!(cursor(&target, &transfer).table, 5);
}

#[test]
fn archive_inspection_is_read_only_bounded_and_survives_the_seal() {
    let store = source();
    let before = store.database().last_transaction().unwrap();
    let archive = ApplicationArchive::from_database(store.into_database()).unwrap();
    assert_eq!(archive.last_transaction(), before);
    assert!(archive.seal().is_none());
    let check = |_: Particle, bytes: &[u8], _: &ApplicationArchive| {
        if bytes.len() == 2 {
            Ok(())
        } else {
            Err(Error::Corrupt)
        }
    };
    let summary = archive.inspect(100, 1_000_000, check).unwrap();
    assert_eq!(summary.tables, [2, 0, 2, 2, 1]);
    assert_eq!(summary.rows, 7);
    assert_eq!(archive.store().database().last_transaction().unwrap(), before);
    assert!(matches!(archive.inspect(1, 1_000_000, check), Err(Error::Limit)));
    assert!(matches!(archive.inspect(100, 1, check), Err(Error::Limit)));
    assert!(matches!(archive.inspect(100, 1_000_000, |_, _, _| Err(Error::Corrupt)), Err(Error::Corrupt)));
    assert_eq!(archive.store().database().last_transaction().unwrap(), before);
    let transfer = TransferSource::from_archive(archive, [9; 32], [8; 32]).unwrap();
    let manifest = transfer.manifest();
    let archive = ApplicationArchive::from_database(transfer.into_store().into_database()).unwrap();
    let sealed = archive.last_transaction();
    assert_eq!(archive.seal().unwrap().manifest, manifest);
    assert_eq!(archive.seal().unwrap().prior, before.unwrap());
    assert_eq!(archive.inspect(100, 1_000_000, check).unwrap(), summary);
    assert_eq!(archive.store().database().last_transaction().unwrap(), sealed);
}

#[test]
fn a_completed_transfer_holds_every_source_row() {
    let mut transfer = sealed(source());
    let mut target = ApplicationStore::from_database(Database::new());
    let done = transfer.stage(&mut target, 32, |_, _, _| Ok(())).unwrap();
    assert!(done.complete);
    assert_eq!(done.manifest, transfer.manifest());
    assert_eq!(done.rows, 7);
    assert_eq!(target.head(&[1; 32]).unwrap(), transfer.store().head(&[1; 32]).unwrap());
    assert_eq!(target.content(&[2; 32], 10).unwrap(), Some(vec![1, 2]));
    assert_eq!(target.content(&[3; 32], 10).unwrap(), Some(vec![1, 3]));
    assert_eq!(target.resolve(&[1; 32], &[3; 32]).unwrap(), transfer.store().resolve(&[1; 32], &[3; 32]).unwrap());
    let c = cursor(&target, &transfer);
    assert_eq!((c.table, c.rows, c.bytes), (5, done.rows, done.bytes));
    // A completed transfer stays complete and copies nothing more.
    let again = transfer.stage(&mut target, 1, |_, _, _| Ok(())).unwrap();
    assert_eq!(again, done);
}

#[test]
fn a_transfer_resumes_page_by_page_to_the_same_result() {
    let mut transfer = sealed(source());
    let mut target = ApplicationStore::from_database(Database::new());
    let mut steps = 0;
    let mut last = transfer.stage(&mut target, 1, |_, _, _| Ok(())).unwrap();
    while !last.complete {
        let next = transfer.stage(&mut target, 1, |_, _, _| Ok(())).unwrap();
        assert!(next.rows >= last.rows);
        last = next;
        steps += 1;
        assert!(steps < 32);
    }
    assert_eq!(last.rows, 7);
    assert_eq!(target.head(&[1; 32]).unwrap(), Some(Head { index: 1, commit: [3; 32] }));
}

#[test]
fn a_page_budget_out_of_range_is_refused() {
    let mut transfer = sealed(source());
    let mut target = ApplicationStore::from_database(Database::new());
    assert!(matches!(transfer.stage(&mut target, 0, |_, _, _| Ok(())), Err(Error::Limit)));
    assert!(matches!(transfer.stage(&mut target, 4097, |_, _, _| Ok(())), Err(Error::Limit)));
    assert_eq!(target.database().last_transaction().unwrap(), None);
}

#[test]
fn host_content_refusal_stops_the_page_before_it_is_copied() {
    let mut transfer = sealed(source());
    let mut target = ApplicationStore::from_database(Database::new());
    assert!(matches!(transfer.stage(&mut target, 1, |_, _, _| Err(Error::Corrupt)), Err(Error::Corrupt)));
    assert!(target.content(&[2; 32], 10).unwrap().is_none());
    assert_eq!(cursor(&target, &transfer).rows, 0);
}

#[test]
fn activation_waits_for_completion_at_the_pinned_target() {
    let mut transfer = sealed(source());
    let mut target = ApplicationStore::from_database(Database::new());
    transfer.stage(&mut target, 1, |_, _, _| Ok(())).unwrap();
    {
        let tx = target.database().begin().unwrap();
        assert!(matches!(require_complete(&tx, &[1; 32], &[9; 32]), Err(Error::Fenced)));
        assert!(require_complete(&tx, &[5; 32], &[9; 32]).is_ok());
    }
    assert!(transfer.stage(&mut target, 32, |_, _, _| Ok(())).unwrap().complete);
    let tx = target.database().begin().unwrap();
    assert!(require_complete(&tx, &[1; 32], &[9; 32]).is_ok());
    assert!(matches!(require_complete(&tx, &[1; 32], &[7; 32]), Err(Error::Conflict)));
}

#[test]
fn sealing_twice_resumes_and_a_different_target_is_refused() {
    let transfer = sealed(source());
    let manifest = transfer.manifest();
    let db = transfer.into_store().into_database();
    let again = TransferSource::from_archive(ApplicationArchive::from_database(db).unwrap(), [9; 32], [8; 32]).unwrap();
    assert_eq!(again.manifest(), manifest);
    let db = again.into_store().into_database();
    let archive = ApplicationArchive::from_database(db).unwrap();
    assert!(matches!(TransferSource::from_archive(archive, [7; 32], [8; 32]), Err(Error::Conflict)));
}

#[test]
fn a_transfer_cannot_fence_uploads_in_progress_at_its_destination() {
    let mut transfer = sealed(source());
    let mut store = ContentStore::from_database(Database::new());
    let upload = Upload { namespace: [1; 32], request: [2; 32] };
    let spec = Spec { particle: *cyber_hemera::hash(b"abcd").as_bytes(), profile: [7; 32], length: 4, part_bytes: 4 };
    store.begin(upload, spec).unwrap();
    let mut target = ApplicationStore::from_database(store.into_database());
    let before = target.database().last_transaction().unwrap();
    let refused = transfer.stage(&mut target, 1, |_, _, _| Ok(()));
    assert!(matches!(refused, Err(Error::Storage(StorageError::Unsupported(m))) if m.contains("content-aware")));
    assert_eq!(target.head(&[1; 32]).unwrap(), None);
    assert_eq!(target.database().last_transaction().unwrap(), before);
    // The upload is still writable and verifiable.
    let mut store = ContentStore::from_database(target.into_database());
    store.write_part(upload, 0, b"abcd").unwrap();
    assert!(store.progress(upload).unwrap().is_some());
}
