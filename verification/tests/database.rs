use bbg::storage::access::StorageError;
use bbg::storage::database::{ByteLimits, Database};
use bbg::storage::table::Table;

fn limits(max_entries: usize, max_bytes: usize) -> ByteLimits {
    ByteLimits { max_entries, max_bytes }
}

#[test]
fn engine_scans_prefixes_and_exclusive_cursors_with_byte_limits() {
    let mut db = Database::new();
    let keys: &[&[u8]] = &[b"\0", b"a", b"ab", b"ab0", b"ab\xff", b"ac", b"\xff", b"\xff\xff"];
    db.transaction(|tx| {
        for key in keys {
            tx.put(Table::Content, key, &[7; 4])?;
        }
        Ok(())
    })
    .unwrap();
    let page = |after: Option<&[u8]>, prefix: &[u8]| db.scan(Table::Content, after, prefix, limits(100, 1000)).unwrap();
    assert_eq!(page(None, b"").first().unwrap().0, b"\0");
    assert_eq!(
        page(None, b"ab").into_iter().map(|(key, _)| key).collect::<Vec<_>>(),
        [b"ab".to_vec(), b"ab0".to_vec(), b"ab\xff".to_vec()]
    );
    assert_eq!(page(Some(b"ab"), b"ab").len(), 2);
    assert_eq!(page(Some(b"a"), b"ab").len(), 3);
    assert!(page(Some(b"ac"), b"ab").is_empty());
    assert_eq!(page(None, b"\xff").len(), 2);
    assert_eq!(page(Some(b"\xff"), b"\xff").len(), 1);
    assert_eq!(db.scan(Table::Content, None, b"ab", limits(1, 1000)).unwrap().len(), 1);
    assert_eq!(db.scan(Table::Content, None, b"ab", limits(100, 12)).unwrap().len(), 1);
    assert!(matches!(db.scan(Table::Content, None, b"ab", limits(100, 5)), Err(StorageError::Limit(_))));
    assert!(matches!(db.read(Table::Content, b"ab", 3), Err(StorageError::Limit(_))));
}

#[test]
fn staged_writes_read_back_inside_the_transaction() {
    let db = Database::new();
    let mut tx = db.begin().unwrap();
    assert_eq!(tx.get(Table::Heads, b"k", 10).unwrap(), None);
    tx.put(Table::Heads, b"k", b"value").unwrap();
    assert_eq!(tx.get(Table::Heads, b"k", 10).unwrap(), Some(b"value".to_vec()));
    tx.remove(Table::Heads, b"k").unwrap();
    assert_eq!(tx.get(Table::Heads, b"k", 10).unwrap(), None);
    assert!(matches!(tx.get(Table::Heads, b"k", 1 << 30), Err(StorageError::Limit(_))));
}

#[test]
fn committed_writes_read_back_with_a_transaction_marker() {
    let mut db = Database::new();
    assert_eq!(db.last_transaction().unwrap(), None);
    let commit = db.transaction(|tx| tx.put(Table::Claims, b"claim", b"holder")).unwrap();
    let id = commit.change_id.unwrap();
    assert_eq!(db.read(Table::Claims, b"claim", 10).unwrap(), Some(b"holder".to_vec()));
    assert_eq!(db.last_transaction().unwrap(), Some(id));
    // No shard table was touched: no shard commit marker.
    assert_eq!(db.read(Table::Metadata, b"last_commit", 32).unwrap(), None);
    let empty = db.transaction(|_| Ok(())).unwrap();
    assert_eq!(empty.change_id, None);
    assert_eq!(db.last_transaction().unwrap(), Some(id));
}

#[test]
fn a_failed_closure_discards_what_it_staged() {
    let mut db = Database::new();
    let r = db.transaction::<(), _>(|tx| {
        tx.put(Table::Claims, b"claim", b"holder")?;
        Err(StorageError::Busy)
    });
    assert!(matches!(r, Err(StorageError::Busy)));
    assert_eq!(db.read(Table::Claims, b"claim", 10).unwrap(), None);
    assert_eq!(db.last_transaction().unwrap(), None);
}

#[test]
fn a_frozen_owner_answers_its_failure_until_reopened() {
    let mut db = Database::new();
    db.transaction(|tx| tx.put(Table::Claims, b"claim", b"holder")).unwrap();
    db.poison(StorageError::CommitUnknown { change_id: [3; 32], message: "lost".to_string() });
    assert!(db.is_poisoned());
    assert!(matches!(db.read(Table::Claims, b"claim", 10), Err(StorageError::CommitUnknown { change_id: [3, ..], .. })));
    assert!(matches!(db.ready(), Err(StorageError::CommitUnknown { .. })));
    let db = db.reopen();
    assert!(!db.is_poisoned());
    assert_eq!(db.read(Table::Claims, b"claim", 10).unwrap(), Some(b"holder".to_vec()));
}

#[test]
fn a_scan_with_staged_writes_in_its_table_is_refused() {
    let db = Database::new();
    let mut tx = db.begin().unwrap();
    tx.put(Table::Content, b"a", b"1").unwrap();
    assert!(matches!(tx.scan(Table::Content, None, b"", limits(10, 100)), Err(StorageError::PendingWrites)));
    assert!(tx.scan(Table::Claims, None, b"", limits(10, 100)).unwrap().is_empty());
    assert!(matches!(tx.scan(Table::Claims, None, b"", limits(0, 100)), Err(StorageError::Limit(_))));
}

#[test]
fn a_lost_acknowledgement_freezes_the_owner_and_other_errors_do_not() {
    let mut db = Database::new();
    let id = db.transaction(|tx| tx.put(Table::Claims, b"claim", b"holder")).unwrap().change_id.unwrap();
    assert_eq!(db.settle(Some(id), Ok(())).unwrap(), Some(id));
    assert!(!db.is_poisoned());
    assert!(matches!(db.settle(Some(id), Err(StorageError::Io("disk".to_string()))), Err(StorageError::Io(_))));
    assert!(!db.is_poisoned());
    assert_eq!(db.last_transaction().unwrap(), Some(id));
    let lost = StorageError::CommitUnknown { change_id: id, message: "barrier".to_string() };
    assert!(matches!(db.settle(Some(id), Err(lost)), Err(StorageError::CommitUnknown { .. })));
    assert!(db.is_poisoned());
    assert!(matches!(db.last_transaction(), Err(StorageError::CommitUnknown { .. })));
    let db = db.reopen();
    assert_eq!(db.last_transaction().unwrap(), Some(id));
    assert_eq!(db.read(Table::Claims, b"claim", 10).unwrap(), Some(b"holder".to_vec()));
}
