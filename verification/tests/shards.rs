use bbg::storage::access::{Durability, ScanLimits, StorageError};
use bbg::storage::database::Database;
use bbg::storage::dim;
use bbg::storage::mem::MemStore;

fn key(b: u8) -> [u8; 32] {
    [b; 32]
}

fn limits(max_entries: usize, max_elements: usize) -> ScanLimits {
    ScanLimits { max_entries, max_elements }
}

#[test]
fn mem_rewrites_of_one_entry_coalesce_into_one_pending_change() {
    let mut store = MemStore::new();
    store.put(0, key(1), vec![1, 2]).unwrap();
    store.put(0, key(1), vec![3]).unwrap();
    assert_eq!(store.dirty_entries().len(), 1);
    assert_eq!(store.dirty_entries()[0].2, vec![3]);
    assert!(store.has_pending());
    store.commit().unwrap();
    assert!(!store.has_pending());
    assert!(store.dirty_entries().is_empty());
    assert_eq!(store.read(0, &key(1), 4).unwrap(), Some(vec![3]));
    assert_eq!(store.durability(), Durability::Memory);
    assert_eq!(store.last_commit().unwrap(), None);
    assert!(!store.is_poisoned());
}

#[test]
fn mem_local_only_writes_are_never_pending() {
    let mut store = MemStore::new();
    store.put(dim::EPHEMERAL, key(6), vec![7]).unwrap();
    assert!(store.dirty_entries().is_empty());
    assert!(!store.has_pending());
    assert_eq!(store.get(dim::EPHEMERAL, &key(6)), Some(&[7u64][..]));
}

#[test]
fn mem_batch_identity_follows_address_order_not_write_order() {
    let mut a = MemStore::new();
    a.put(0, key(1), vec![1]).unwrap();
    a.put(1, key(2), vec![2]).unwrap();
    let mut b = MemStore::new();
    b.put(1, key(2), vec![2]).unwrap();
    b.put(0, key(1), vec![1]).unwrap();
    let mut c = MemStore::new();
    c.put(0, key(1), vec![1]).unwrap();
    c.put(1, key(2), vec![3]).unwrap();
    let ia = a.commit().unwrap();
    assert_eq!(ia, b.commit().unwrap());
    assert_ne!(ia, c.commit().unwrap());
    let empty = MemStore::new().commit().unwrap();
    assert_ne!(ia, empty);
}

#[test]
fn mem_remove_returns_the_value_and_leaves_a_pending_deletion() {
    let mut store = MemStore::new();
    store.put(0, key(7), vec![55]).unwrap();
    store.commit().unwrap();
    assert_eq!(store.remove(0, &key(7)).unwrap(), Some(vec![55]));
    assert!(store.get(0, &key(7)).is_none());
    assert!(store.has_pending());
    assert!(store.dirty_entries().is_empty());
    assert_eq!(store.remove(0, &key(8)).unwrap(), None);
    assert_eq!(store.remove(14, &key(8)), Err(StorageError::InvalidDimension(14)));
}

#[test]
fn mem_mark_dirty_queues_the_current_value_again() {
    let mut store = MemStore::new();
    store.put(0, key(8), vec![10, 20]).unwrap();
    store.commit().unwrap();
    store.mark_dirty(0, key(8)).unwrap();
    assert_eq!(store.dirty_entries().len(), 1);
    assert_eq!(store.dirty_entries()[0].2, vec![10, 20]);
    store.mark_dirty(0, key(9)).unwrap();
    assert_eq!(store.dirty_entries().len(), 1);
    assert_eq!(store.mark_dirty(20, key(8)), Err(StorageError::InvalidDimension(20)));
}

#[test]
fn mem_writes_are_bounded() {
    let mut store = MemStore::new();
    assert_eq!(
        store.put(0, key(1), vec![0; 131_073]),
        Err(StorageError::Limit("value element count"))
    );
    assert_eq!(store.put(14, key(1), vec![0]), Err(StorageError::InvalidDimension(14)));
    store.put(0, key(1), vec![1, 2]).unwrap();
    assert_eq!(store.read(0, &key(1), 1), Err(StorageError::Limit("value exceeds read budget")));
    assert_eq!(store.read(0, &key(1), 131_073), Err(StorageError::Limit("read element count")));
    assert_eq!(store.read(0, &key(2), 1).unwrap(), None);
}

#[test]
fn mem_scan_pages_resume_after_the_cursor() {
    let mut store = MemStore::new();
    store.put(0, key(3), vec![3]).unwrap();
    store.put(0, key(1), vec![1]).unwrap();
    store.put(0, key(2), vec![2, 2]).unwrap();
    store.put(1, key(0), vec![9]).unwrap();
    let first = store.scan(0, None, limits(2, 10)).unwrap();
    assert_eq!(first, vec![(key(1), vec![1]), (key(2), vec![2, 2])]);
    let rest = store.scan(0, Some(key(2)), limits(2, 10)).unwrap();
    assert_eq!(rest, vec![(key(3), vec![3])]);
    assert_eq!(store.scan(0, None, limits(10, 2)).unwrap(), vec![(key(1), vec![1])]);
    assert_eq!(store.scan(0, Some(key(1)), limits(10, 1)), Err(StorageError::Limit("value exceeds read budget")));
    assert_eq!(store.scan(14, None, limits(1, 1)), Err(StorageError::InvalidDimension(14)));
    assert_eq!(store.scan(0, None, limits(0, 1)), Err(StorageError::Limit("scan entry count")));
    assert_eq!(store.scan(0, None, limits(1, 131_073)), Err(StorageError::Limit("read element count")));
}

#[test]
fn mem_iter_returns_the_entries_of_one_dimension() {
    let mut store = MemStore::new();
    store.put(0, key(1), vec![1]).unwrap();
    store.put(0, key(2), vec![2]).unwrap();
    store.put(1, key(3), vec![3]).unwrap();
    assert_eq!(store.iter(0).len(), 2);
    assert_eq!(store.iter(1), vec![(key(3), vec![3])]);
    assert!(store.iter(2).is_empty());
}

#[test]
fn disk_writes_read_back_before_and_after_commit() {
    let mut shards = Database::new().shards();
    assert_eq!(shards.durability(), Durability::Disk);
    shards.put(0, key(2), vec![1, 2]).unwrap();
    shards.put(dim::EPHEMERAL, key(3), vec![4]).unwrap();
    assert_eq!(shards.read(0, &key(2), 2).unwrap(), Some(vec![1, 2]));
    assert_eq!(shards.get(0, &key(2)), Some(&[1u64, 2][..]));
    assert_eq!(shards.dirty_entries().len(), 1);
    let id = shards.commit().unwrap();
    assert!(!shards.has_pending());
    assert_eq!(shards.last_commit().unwrap(), Some(id));
    assert_eq!(shards.read(0, &key(2), 2).unwrap(), Some(vec![1, 2]));
    assert!(shards.get(0, &key(2)).is_none());
    assert_eq!(shards.get(dim::EPHEMERAL, &key(3)), Some(&[4u64][..]));
    let db = shards.into_database();
    assert_eq!(db.last_transaction().unwrap(), Some(id));
    let fresh = db.shards();
    assert_eq!(fresh.read(0, &key(2), 2).unwrap(), Some(vec![1, 2]));
    assert_eq!(fresh.read(dim::EPHEMERAL, &key(3), 2).unwrap(), None);
}

#[test]
fn disk_commit_with_nothing_pending_returns_the_last_marker() {
    let mut shards = Database::new().shards();
    let empty = shards.commit().unwrap();
    assert_eq!(empty, MemStore::new().commit().unwrap());
    shards.put(1, key(1), vec![5]).unwrap();
    let id = shards.commit().unwrap();
    assert_ne!(id, empty);
    assert_eq!(shards.commit().unwrap(), id);
}

#[test]
fn disk_removal_is_committed_as_a_deletion() {
    let mut shards = Database::new().shards();
    shards.put(0, key(4), vec![9]).unwrap();
    shards.commit().unwrap();
    assert_eq!(shards.remove(0, &key(4)).unwrap(), Some(vec![9]));
    assert_eq!(shards.read(0, &key(4), 1).unwrap(), None);
    shards.commit().unwrap();
    let fresh = shards.into_database().shards();
    assert_eq!(fresh.read(0, &key(4), 1).unwrap(), None);
    assert_eq!(fresh.load(0, &key(4), 1).unwrap(), None);
}

#[test]
fn disk_scans_are_refused_while_writes_are_pending() {
    let mut shards = Database::new().shards();
    shards.put(0, key(1), vec![1]).unwrap();
    assert_eq!(shards.scan(0, None, limits(10, 10)), Err(StorageError::PendingWrites));
    shards.put(0, key(2), vec![2, 2]).unwrap();
    shards.put(dim::EPHEMERAL, key(5), vec![5]).unwrap();
    shards.commit().unwrap();
    assert_eq!(shards.scan(0, None, limits(10, 10)).unwrap(), vec![(key(1), vec![1]), (key(2), vec![2, 2])]);
    assert_eq!(shards.scan(0, Some(key(1)), limits(10, 10)).unwrap(), vec![(key(2), vec![2, 2])]);
    assert_eq!(shards.scan(0, None, limits(10, 2)).unwrap(), vec![(key(1), vec![1])]);
    assert_eq!(shards.scan(0, None, limits(10, 1)), Err(StorageError::Limit("value exceeds read budget")));
    assert_eq!(shards.scan(dim::EPHEMERAL, None, limits(10, 10)).unwrap(), vec![(key(5), vec![5])]);
    assert_eq!(shards.iter(dim::EPHEMERAL), vec![(key(5), vec![5])]);
    assert!(shards.get_mut(0, &key(1)).is_none());
    shards.mark_dirty(0, key(1)).unwrap();
    assert!(!shards.has_pending());
}

#[test]
fn disk_view_of_a_frozen_owner_answers_its_failure() {
    let mut db = Database::new();
    db.poison(StorageError::Io("sync".to_string()));
    let mut shards = db.shards();
    assert!(shards.is_poisoned());
    assert_eq!(shards.put(2, key(4), vec![1]), Err(StorageError::Io("sync".to_string())));
    assert_eq!(shards.read(0, &key(2), 1), Err(StorageError::Io("sync".to_string())));
    assert_eq!(shards.commit(), Err(StorageError::Io("sync".to_string())));
    assert!(shards.get(0, &key(2)).is_none());
    assert!(shards.iter(0).is_empty());
    let reopened = shards.into_database().reopen().shards();
    assert!(!reopened.is_poisoned());
}
