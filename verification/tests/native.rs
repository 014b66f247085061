use bbg::storage::access::StorageError;
use bbg::storage::application::{from_storage, ApplicationStore, Error, Head, Write};
use bbg::storage::database::{Database, Transaction};
use bbg::storage::records::{RecordDomain, RecordLimits, RECORD_DOMAINS};
use bbg::storage::table::Table;

fn seed(app: &mut ApplicationStore) -> [u8; 32] {
    app.apply_with(
        &Write {
            namespace: [1; 32],
            request: [10; 32],
            fingerprint: [11; 32],
            expected: None,
            head: Head { index: 0, commit: [12; 32] },
            content: &[([12; 32], b"old application".to_vec())],
            claims: &[],
        },
        |tx| {
            for (i, domain) in RECORD_DOMAINS.into_iter().enumerate() {
                tx.put_record(domain, b"current", &[i as u8, 0]).map_err(from_storage)?;
                tx.put_record(domain, b"deleted", &[i as u8, 9]).map_err(from_storage)?;
            }
            tx.put_record(RecordDomain::NativeState, b"probe", &vec![7; 65_536]).map_err(from_storage)?;
            tx.put_shard(0, [2; 32], &[1]).map_err(from_storage)?;
            Ok(())
        },
    )
    .unwrap();
    app.database().last_transaction().unwrap().unwrap()
}

fn transition(tx: &mut Transaction<'_>) -> Result<(), Error> {
    for (i, domain) in RECORD_DOMAINS.into_iter().enumerate() {
        tx.put_record(domain, b"current", &[i as u8, 1]).map_err(from_storage)?;
        tx.remove_record(domain, b"deleted").map_err(from_storage)?;
        tx.put_record(domain, b"new", &[i as u8, 2]).map_err(from_storage)?;
    }
    tx.remove_shard(0, &[2; 32]).map_err(from_storage)?;
    tx.put_shard(1, [3; 32], &[99]).map_err(from_storage)?;
    Ok(())
}

fn injected() -> StorageError {
    StorageError::Io("injected native composition I/O failure".to_string())
}

/// Settle the last commit as the engine reports it when its acknowledgement
/// was lost: the owner freezes and the unknown outcome is handed back.
fn lose_acknowledgement(app: ApplicationStore) -> ApplicationStore {
    let mut db = app.into_database();
    let change_id = db.last_transaction().unwrap().unwrap();
    assert!(!db.is_poisoned());
    let reported = Err(StorageError::CommitUnknown {
        change_id,
        message: "injected native composition I/O failure".to_string(),
    });
    assert!(matches!(db.settle(Some(change_id), reported), Err(StorageError::CommitUnknown { .. })));
    assert!(db.is_poisoned());
    ApplicationStore::from_database(db)
}

fn assert_frozen(app: &mut ApplicationStore, request: &Write<'_>) -> [u8; 32] {
    assert!(app.database().is_poisoned());
    let StorageError::CommitUnknown { change_id, .. } = app.database().last_transaction().unwrap_err() else {
        panic!("expected shared commit failure")
    };
    for domain in RECORD_DOMAINS {
        assert!(matches!(
            app.database().read_record(domain, b"current", 2),
            Err(StorageError::CommitUnknown { .. })
        ));
        assert!(matches!(
            app.database().scan_records(domain, None, b"", RecordLimits { max_entries: 1, max_bytes: 100 }),
            Err(StorageError::CommitUnknown { .. })
        ));
    }
    assert!(matches!(app.database().begin(), Err(StorageError::CommitUnknown { .. })));
    assert!(matches!(app.head(&[1; 32]), Err(Error::CommitUnknown(_))));
    assert!(matches!(app.content(&[12; 32], 100), Err(Error::CommitUnknown(_))));
    assert!(matches!(app.resolve(&[1; 32], &[20; 32]), Err(Error::CommitUnknown(_))));
    assert!(matches!(
        app.apply_with(request, |_| panic!("frozen application ran")),
        Err(Error::CommitUnknown(_))
    ));
    let mut db = std::mem::replace(app, ApplicationStore::from_database(Database::new())).into_database();
    assert!(matches!(
        db.transaction::<(), _>(|_| panic!("frozen transaction ran")),
        Err(StorageError::CommitUnknown { .. })
    ));
    *app = ApplicationStore::from_database(db);
    change_id
}

fn read_shard(db: &Database, dimension: u8, key: &[u8; 32]) -> Option<Vec<u64>> {
    db.begin().unwrap().read_shard(dimension, key, 1).unwrap()
}

fn assert_recovered(app: &ApplicationStore, accepted: bool) {
    let db = app.database();
    for (i, domain) in RECORD_DOMAINS.into_iter().enumerate() {
        assert_eq!(db.read_record(domain, b"current", 2).unwrap(), Some(vec![i as u8, u8::from(accepted)]));
        assert_eq!(db.read_record(domain, b"deleted", 2).unwrap(), (!accepted).then(|| vec![i as u8, 9]));
        assert_eq!(db.read_record(domain, b"new", 2).unwrap(), accepted.then(|| vec![i as u8, 2]));
    }
    assert_eq!(db.read_record(RecordDomain::NativeState, b"probe", 65_536).unwrap(), Some(vec![7; 65_536]));
    assert_eq!(read_shard(db, 0, &[2; 32]), (!accepted).then(|| vec![1]));
    assert_eq!(read_shard(db, 1, &[3; 32]), accepted.then(|| vec![99]));
    let expected = if accepted { Head { index: 1, commit: [13; 32] } } else { Head { index: 0, commit: [12; 32] } };
    assert_eq!(app.head(&[1; 32]).unwrap(), Some(expected));
    assert_eq!(app.history(&[1; 32], None, 10).unwrap().len(), 1 + usize::from(accepted));
    assert_eq!(app.resolve(&[1; 32], &[20; 32]).unwrap(), accepted.then_some(([21; 32], expected)));
    assert_eq!(app.content(&[13; 32], 100).unwrap(), accepted.then(|| b"new application".to_vec()));
    let last_commit = db.read(Table::Metadata, b"last_commit", 32).unwrap();
    assert_eq!(last_commit, db.last_transaction().unwrap().map(|m| m.to_vec()));
}

fn composition_fault(mode: u8) {
    let mut app = ApplicationStore::from_database(Database::new());
    let old_marker = seed(&mut app);
    let content = [([13; 32], b"new application".to_vec())];
    let request = Write {
        namespace: [1; 32],
        request: [20; 32],
        fingerprint: [21; 32],
        expected: Some(Head { index: 0, commit: [12; 32] }),
        head: Head { index: 1, commit: [13; 32] },
        content: &content,
        claims: &[([40; 32], [50; 32])],
    };
    // Mode 1 fails a read inside the transition, mode 2 a write before the
    // commit; modes 3 and 4 lose the acknowledgement of a commit that reached
    // the rows before or after its barrier.
    let result = app.apply_with(&request, |tx| {
        transition(tx)?;
        if mode == 1 {
            tx.read_record(RecordDomain::NativeState, b"probe", 65_536).map_err(from_storage)?;
            return Err(Error::Storage(injected()));
        }
        if mode == 2 {
            return Err(Error::Storage(injected()));
        }
        Ok(())
    });
    let result = match result {
        Ok(_) if mode >= 3 => {
            app = lose_acknowledgement(app);
            Err(Error::CommitUnknown("injected native composition I/O failure".to_string()))
        }
        other => other,
    };
    let attempted = match result {
        Err(Error::CommitUnknown(_)) => Some(assert_frozen(&mut app, &request)),
        Err(Error::Storage(_)) if mode <= 2 => {
            assert!(!app.database().is_poisoned());
            None
        }
        other => panic!("fault {mode} returned {other:?}"),
    };
    if mode == 1 {
        assert!(attempted.is_none());
        // The backend seals its own handle after a physical read failure. The
        // closure aborted before commit; recovery must still reopen it.
        let mut db = app.into_database();
        db.poison(injected());
        assert!(matches!(db.read_record(RecordDomain::NativeState, b"current", 2), Err(StorageError::Io(_))));
        app = ApplicationStore::from_database(db);
    }
    let mut app = ApplicationStore::from_database(app.into_database().reopen());
    let accepted = app.resolve(&[1; 32], &[20; 32]).unwrap().is_some();
    assert_recovered(&app, accepted);
    if accepted {
        assert_eq!(app.database().last_transaction().unwrap(), attempted);
        assert_eq!(
            app.apply_with(&request, |_| panic!("accepted transition executed twice")).unwrap(),
            request.head
        );
        assert_eq!(app.database().last_transaction().unwrap(), attempted);
    } else {
        assert_eq!(app.database().last_transaction().unwrap(), Some(old_marker));
        app.apply_with(&request, transition).unwrap();
        assert_recovered(&app, true);
    }
    if mode == 4 {
        assert!(accepted, "completed barrier must retain all composed domains");
    }
    let competitor = Write {
        namespace: [6; 32],
        expected: None,
        head: Head { index: 0, commit: [13; 32] },
        claims: &[([40; 32], [51; 32])],
        ..request
    };
    assert!(matches!(app.apply(&competitor), Err(Error::Conflict)));
}

#[test]
fn native_precommit_read_error_rolls_back_every_composed_domain() {
    composition_fault(1);
}

#[test]
fn native_write_error_recovers_a_whole_composed_commit() {
    composition_fault(2);
}

#[test]
fn native_sync_error_freezes_every_shared_view_until_reopen() {
    composition_fault(3);
}

#[test]
fn native_lost_barrier_ack_recovers_all_domains_and_deduplicates_retry() {
    composition_fault(4);
}

fn write_at<'a>(request: u8, fingerprint: u8, expected: Option<Head>, head: Head, content: &'a [([u8; 32], Vec<u8>)]) -> Write<'a> {
    Write { namespace: [1; 32], request: [request; 32], fingerprint: [fingerprint; 32], expected, head, content, claims: &[] }
}

#[test]
fn receipts_and_heads_are_checked_before_the_migration_status() {
    let content = [([12; 32], b"genesis".to_vec())];
    let genesis = Head { index: 0, commit: [12; 32] };
    let mut app = ApplicationStore::from_database(Database::new());
    assert_eq!(app.apply(&write_at(10, 11, None, genesis, &content)).unwrap(), genesis);
    let mut db = app.into_database();
    db.restore(Table::Migration, b"status", &[b'x'; 17]);
    let mut app = ApplicationStore::from_database(db);
    // A replay answers its recorded head, whatever the status row holds.
    assert_eq!(app.apply(&write_at(10, 11, None, genesis, &content)).unwrap(), genesis);
    assert_eq!(app.apply_with(&write_at(10, 11, None, genesis, &content), |_| panic!("replayed")).unwrap(), genesis);
    // Another fingerprint under the same request conflicts.
    assert!(matches!(app.apply(&write_at(10, 99, None, genesis, &content)), Err(Error::Conflict)));
    // A wrong expected head or a skipped index is refused as such.
    let next = Head { index: 1, commit: [12; 32] };
    assert!(matches!(app.apply(&write_at(20, 21, None, next, &content)), Err(Error::HeadMismatch)));
    let skipped = Head { index: 2, commit: [12; 32] };
    assert!(matches!(app.apply(&write_at(20, 21, Some(genesis), skipped, &content)), Err(Error::InvalidSequence)));
    // Only a fresh write that passes every check meets the oversized status.
    assert!(matches!(app.apply(&write_at(20, 21, Some(genesis), next, &content)), Err(Error::Limit)));
    let mut db = app.into_database();
    db.restore(Table::Migration, b"status", b"export-v1");
    let mut app = ApplicationStore::from_database(db);
    assert_eq!(app.apply(&write_at(10, 11, None, genesis, &content)).unwrap(), genesis);
    assert!(matches!(app.apply(&write_at(20, 21, Some(genesis), next, &content)), Err(Error::Fenced)));
    assert_eq!(app.head(&[1; 32]).unwrap(), Some(genesis));
}

#[test]
fn a_fresh_write_commits_its_transition_with_its_rows() {
    let content = [([12; 32], b"genesis".to_vec())];
    let genesis = Head { index: 0, commit: [12; 32] };
    let mut app = ApplicationStore::from_database(Database::new());
    let w = Write { claims: &[([40; 32], [50; 32])], ..write_at(10, 11, None, genesis, &content) };
    let head = app
        .apply_with(&w, |tx| tx.put(Table::Claims, &[41; 32], &[51; 32]).map_err(from_storage))
        .unwrap();
    assert_eq!(head, genesis);
    assert_eq!(app.head(&[1; 32]).unwrap(), Some(genesis));
    assert_eq!(app.resolve(&[1; 32], &[10; 32]).unwrap(), Some(([11; 32], genesis)));
    assert_eq!(app.content(&[12; 32], 100).unwrap(), Some(b"genesis".to_vec()));
    assert_eq!(app.history(&[1; 32], None, 10).unwrap(), vec![genesis]);
    let db = app.database();
    assert_eq!(db.read(Table::Claims, &[40; 32], 32).unwrap(), Some(vec![50; 32]));
    assert_eq!(db.read(Table::Claims, &[41; 32], 32).unwrap(), Some(vec![51; 32]));
    assert!(db.last_transaction().unwrap().is_some());
    // A failing transition leaves nothing behind.
    let mut app = ApplicationStore::from_database(Database::new());
    let r = app.apply_with(&w, |_| Err(Error::Corrupt));
    assert!(matches!(r, Err(Error::Corrupt)));
    assert_eq!(app.head(&[1; 32]).unwrap(), None);
    assert_eq!(app.database().last_transaction().unwrap(), None);
}
