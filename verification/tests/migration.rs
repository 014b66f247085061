use bbg::storage::application::Error;
use bbg::storage::access::StorageError;
use bbg::storage::database::{Database, RawEntry};
use bbg::storage::migration::{
    check_legacy_tables, finish_table_hash, hash_row, import_page, import_table, mark_import, migrate_tables,
    new_table_hash, page_frame_len, table_digest, verify_table,
};
use bbg::storage::table::Table;

fn names(list: &[&str]) -> Vec<String> {
    list.iter().map(|n| n.to_string()).collect()
}

fn content_rows() -> Vec<RawEntry> {
    vec![(vec![1; 32], b"first".to_vec()), (vec![2; 32], b"second".to_vec()), (vec![3; 32], Vec::new())]
}

#[test]
fn legacy_databases_must_hold_exactly_the_application_tables() {
    let all = names(&["claims", "content", "heads", "history", "requests"]);
    assert_eq!(check_legacy_tables(&all, false), Ok(()));
    assert_eq!(
        check_legacy_tables(&all, true),
        Err(Error::Storage(StorageError::Unsupported("migration rejects unsupported multimap tables")))
    );
    assert_eq!(
        check_legacy_tables(&names(&["content", "particles"]), false),
        Err(Error::Storage(StorageError::Unsupported("migration expects a legacy application-only database")))
    );
    assert_eq!(check_legacy_tables(&names(&["content", "heads"]), false), Err(Error::Corrupt));
}

#[test]
fn imported_rows_read_back_with_the_digest_of_the_rows_read() {
    let mut target = Database::new();
    mark_import(&mut target, b"copying").unwrap();
    let rows = content_rows();
    let mut source = new_table_hash();
    import_page(&mut target, Table::Content, &rows[..2], &mut source).unwrap();
    import_page(&mut target, Table::Content, &rows[2..], &mut source).unwrap();
    let expected = finish_table_hash(&source);
    assert_eq!(table_digest(&target, Table::Content).unwrap(), expected);
    assert_eq!(verify_table(&target, Table::Content, &expected), Ok(()));
    assert_eq!(verify_table(&target, Table::Content, &[0; 32]), Err(Error::Corrupt));
    assert_eq!(target.read(Table::Content, &[2; 32], 10).unwrap(), Some(b"second".to_vec()));
    mark_import(&mut target, b"complete").unwrap();
    assert_eq!(target.read(Table::Migration, b"status", 16).unwrap(), Some(b"complete".to_vec()));

    let mut direct = new_table_hash();
    for (key, value) in &rows {
        hash_row(&mut direct, key, value);
    }
    assert_eq!(finish_table_hash(&direct), expected);
    let mut reordered = new_table_hash();
    hash_row(&mut reordered, &rows[1].0, &rows[1].1);
    hash_row(&mut reordered, &rows[0].0, &rows[0].1);
    hash_row(&mut reordered, &rows[2].0, &rows[2].1);
    assert_ne!(finish_table_hash(&reordered), expected);
}

#[test]
fn a_page_with_a_malformed_row_is_refused_whole() {
    let mut target = Database::new();
    let rows = vec![(vec![1; 32], vec![1; 32]), (vec![2; 31], vec![2; 32])];
    let mut hash = new_table_hash();
    assert_eq!(import_page(&mut target, Table::Claims, &rows, &mut hash), Err(Error::Corrupt));
    assert_eq!(target.read(Table::Claims, &[1; 32], 32).unwrap(), None);
    assert_eq!(target.last_transaction().unwrap(), None);
    assert_eq!(table_digest(&target, Table::Claims).unwrap(), finish_table_hash(&new_table_hash()));
}

#[test]
fn a_frozen_target_refuses_the_import() {
    let mut target = Database::new();
    target.poison(StorageError::Busy);
    let mut hash = new_table_hash();
    assert!(import_page(&mut target, Table::Content, &content_rows(), &mut hash).is_err());
    assert!(mark_import(&mut target, b"copying").is_err());
    assert!(table_digest(&target, Table::Content).is_err());
}

#[test]
fn a_one_page_table_imports_with_its_digest() {
    let rows = content_rows();
    assert_eq!(page_frame_len(&rows), Some(3 * 16 + 96 + 11));
    let mut target = Database::new();
    let digest = import_table(&mut target, Table::Content, &rows).unwrap();
    assert_eq!(table_digest(&target, Table::Content).unwrap(), digest);
    let mut direct = new_table_hash();
    for (key, value) in &rows {
        hash_row(&mut direct, key, value);
    }
    assert_eq!(finish_table_hash(&direct), digest);
    let mut empty = Database::new();
    assert_eq!(import_table(&mut empty, Table::Content, &[]).unwrap(), finish_table_hash(&new_table_hash()));
    assert_eq!(empty.last_transaction().unwrap(), None);
    let bad = vec![(vec![1; 5], b"short key".to_vec())];
    let mut untouched = Database::new();
    assert_eq!(import_table(&mut untouched, Table::Content, &bad), Err(Error::Corrupt));
    assert_eq!(untouched.read(Table::Content, &[1; 5], 16).unwrap(), None);
}

fn legacy_tables(content: Vec<RawEntry>) -> Vec<(Table, Vec<RawEntry>)> {
    vec![
        (Table::Content, content),
        (Table::Heads, Vec::new()),
        (Table::History, Vec::new()),
        (Table::Requests, Vec::new()),
        (Table::Claims, Vec::new()),
    ]
}

#[test]
fn a_migration_copies_every_table_and_ends_complete() {
    let all = names(&["claims", "content", "heads", "history", "requests"]);
    let mut target = Database::new();
    assert_eq!(migrate_tables(&mut target, &all, false, &legacy_tables(content_rows())), Ok(()));
    assert_eq!(target.read(Table::Migration, b"status", 64), Ok(Some(b"complete".to_vec())));
    assert_eq!(target.read(Table::Content, &[2; 32], 64), Ok(Some(b"second".to_vec())));
}

#[test]
fn a_migration_refuses_a_store_that_is_not_a_legacy_one_without_writing() {
    let mut target = Database::new();
    assert_eq!(
        migrate_tables(&mut target, &names(&["content", "heads"]), false, &legacy_tables(content_rows())),
        Err(Error::Corrupt)
    );
    assert_eq!(target.read(Table::Migration, b"status", 64), Ok(None));
    let all = names(&["claims", "content", "heads", "history", "requests"]);
    assert_eq!(
        migrate_tables(&mut target, &all, true, &legacy_tables(content_rows())),
        Err(Error::Storage(StorageError::Unsupported("migration rejects unsupported multimap tables")))
    );
    assert_eq!(target.read(Table::Content, &[1; 32], 64), Ok(None));
}

#[test]
fn a_migration_refuses_a_malformed_row() {
    let all = names(&["claims", "content", "heads", "history", "requests"]);
    let mut target = Database::new();
    let bad = vec![(vec![1; 3], b"short key".to_vec())];
    assert_eq!(migrate_tables(&mut target, &all, false, &legacy_tables(bad)), Err(Error::Corrupt));
    assert_eq!(target.read(Table::Migration, b"status", 64), Ok(Some(b"copying".to_vec())));
}
