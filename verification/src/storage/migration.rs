//! Import of a legacy application database into a fresh owner, table by
//! table: every row checked, absorbed into a running digest and copied in
//! one transaction per page; then the copy is read back and its digest
//! compared with the one of the rows read.
use crate::bytes::{copy_bytes, le64, lemma_le64, push_le64};
use crate::hash::{StreamHasher, hemera_digest};
use crate::ordered::sorted;
use crate::storage::access::StorageError;
use crate::storage::application::{Error, app_error, from_storage};
use crate::storage::database::{
    ByteLimits, Database, MARKER_RESERVE, MAX_BYTES_VALUE, MAX_KEY_BYTES, MAX_TRANSACTION_BYTES,
    MAX_TRANSACTION_KEYS, RawEntry, apply_changes, byte_page, change_id_spec, changes_view, raw_view,
    select_rows, staged_of, with_markers,
};
use crate::storage::links::validate_links;
use crate::storage::paging::{law_page_resumes_after_cursor, lemma_page_outcomes, lemma_page_prefix};
use crate::storage::table::{Table, address, table_code};
use vstd::string::StringSliceAdditionalSpecFns;
use crate::storage::validation::{record_valid, validate_record};
use vstd::prelude::*;

verus! {

/// The tables of a legacy application database.
pub open spec fn application_table(t: Table) -> bool {
    t == Table::Content || t == Table::Heads || t == Table::History || t == Table::Requests || t
        == Table::Claims
}

/// The frame of one row in a table digest: key length, key, value length, value.
pub open spec fn row_frame(key: Seq<u8>, value: Seq<u8>) -> Seq<u8> {
    le64(key.len() as u64) + key + le64(value.len() as u64) + value
}

pub open spec fn rows_frame(rows: Seq<(Seq<u8>, Seq<u8>)>) -> Seq<u8>
    decreases rows.len(),
{
    if rows.len() == 0 {
        Seq::empty()
    } else {
        rows_frame(rows.drop_last()) + row_frame(rows.last().0, rows.last().1)
    }
}

/// Key and value bytes of `rows`.
pub open spec fn rows_bytes(rows: Seq<(Seq<u8>, Seq<u8>)>) -> int
    decreases rows.len(),
{
    if rows.len() == 0 {
        0
    } else {
        rows_bytes(rows.drop_last()) + rows.last().0.len() + rows.last().1.len()
    }
}

/// Every row of `rows` has the shape of its table.
pub open spec fn rows_valid(table: Table, rows: Seq<(Seq<u8>, Seq<u8>)>) -> bool {
    forall|i: int| 0 <= i < rows.len() ==> record_valid(table, #[trigger] rows[i].0, rows[i].1)
}

/// The writes that copying `rows` into `table` stages, later rows last.
pub open spec fn page_writes(table: Table, rows: Seq<(Seq<u8>, Seq<u8>)>) -> Map<Seq<u8>, Option<Seq<u8>>>
    decreases rows.len(),
{
    if rows.len() == 0 {
        Map::empty()
    } else {
        page_writes(table, rows.drop_last()).insert(address(table, rows.last().0), Some(rows.last().1))
    }
}

/// Rows per page of the read-back pass, and the page byte budget.
pub open spec fn import_limits() -> ByteLimits {
    ByteLimits { max_entries: 4096, max_bytes: (MAX_TRANSACTION_BYTES - 1024) as usize }
}

/// Every row of `table` in the owner, in key order.
pub open spec fn owner_rows(db: Database, table: Table) -> Seq<(Seq<u8>, Seq<u8>)> {
    select_rows(db.entries(), address(table, Seq::empty()), None)
}

/// What the read-back pass absorbs from the `remaining` rows, page by page,
/// after `input`.
pub open spec fn digest_pages(remaining: Seq<(Seq<u8>, Seq<u8>)>, input: Seq<u8>) -> Result<Seq<u8>, Error>
    decreases remaining.len(),
{
    let limits = import_limits();
    match byte_page(remaining, limits.max_entries as nat, limits.max_bytes as nat, 0) {
        Err(e) => Err(app_error(e)),
        Ok(page) => if page.len() == 0 {
            Ok(input)
        } else {
            proof {
                lemma_page_prefix(remaining, limits.max_entries as nat, limits.max_bytes as nat, 0);
            }
            digest_pages(remaining.skip(page.len() as int), input + rows_frame(page))
        },
    }
}

proof fn lemma_frame_take(rows: Seq<(Seq<u8>, Seq<u8>)>, i: int)
    requires
        0 <= i < rows.len(),
    ensures
        rows_frame(rows.take(i + 1)) == rows_frame(rows.take(i)) + row_frame(rows[i].0, rows[i].1),
        rows_bytes(rows.take(i + 1)) == rows_bytes(rows.take(i)) + rows[i].0.len() + rows[i].1.len(),
        forall|t: Table|
            #[trigger] page_writes(t, rows.take(i + 1)) == page_writes(t, rows.take(i)).insert(
                address(t, rows[i].0),
                Some(rows[i].1),
            ),
{
    assert(rows.take(i + 1).drop_last() =~= rows.take(i));
    assert(rows.take(i + 1).last() == rows[i]);
}

proof fn lemma_frame_len(rows: Seq<(Seq<u8>, Seq<u8>)>, i: int)
    requires
        0 <= i <= rows.len(),
    ensures
        rows_frame(rows.take(i)).len() <= rows_frame(rows).len(),
        rows_bytes(rows.take(i)) <= rows_bytes(rows),
        rows_bytes(rows.take(i)) >= 0,
    decreases rows.len(),
{
    if i < rows.len() {
        lemma_frame_len(rows.drop_last(), i);
        assert(rows.drop_last().take(i) =~= rows.take(i));
    } else {
        assert(rows.take(i) =~= rows);
        lemma_bytes_nonneg(rows);
    }
}

proof fn lemma_bytes_nonneg(rows: Seq<(Seq<u8>, Seq<u8>)>)
    ensures
        rows_bytes(rows) >= 0,
    decreases rows.len(),
{
    if rows.len() > 0 {
        lemma_bytes_nonneg(rows.drop_last());
    }
}

/// Absorb one row into a table digest.
pub fn hash_row(hash: &mut StreamHasher, key: &[u8], value: &[u8])
    requires
        old(hash).absorbed().len() + row_frame(key@, value@).len() <= u64::MAX,
    ensures
        final(hash).absorbed() == old(hash).absorbed() + row_frame(key@, value@),
{
    proof {
        crate::bytes::lemma_le64(key@.len() as u64);
        crate::bytes::lemma_le64(value@.len() as u64);
    }
    let mut klen: Vec<u8> = Vec::new();
    push_le64(&mut klen, key.len() as u64);
    let mut vlen: Vec<u8> = Vec::new();
    push_le64(&mut vlen, value.len() as u64);
    hash.update(klen.as_slice());
    hash.update(key);
    hash.update(vlen.as_slice());
    hash.update(value);
    proof {
        assert(klen@ =~= le64(key@.len() as u64));
        assert(vlen@ =~= le64(value@.len() as u64));
        assert(final(hash).absorbed() =~= old(hash).absorbed() + row_frame(key@, value@));
    }
}

/// What the table check answers for the table names a legacy store lists.
pub open spec fn legacy_check(names: Seq<String>, has_multimap: bool) -> Result<(), Error> {
    if has_multimap {
        Err(Error::Storage(StorageError::Unsupported("migration rejects unsupported multimap tables")))
    } else if exists|i: int| 0 <= i < names.len() && !legacy_name(#[trigger] names[i]@) {
        Err(Error::Storage(StorageError::Unsupported("migration expects a legacy application-only database")))
    } else if names.len() != 5 {
        Err(Error::Corrupt)
    } else {
        Ok(())
    }
}

/// Check the tables that a legacy database lists: no multimap table, only
/// application tables, and all of them.
pub fn check_legacy_tables(names: &Vec<String>, has_multimap: bool) -> (r: Result<(), Error>)
    ensures
        r == legacy_check(names@, has_multimap),
        has_multimap ==> r == Err::<(), Error>(
            Error::Storage(StorageError::Unsupported("migration rejects unsupported multimap tables")),
        ),
        !has_multimap && (exists|i: int| 0 <= i < names@.len() && !legacy_name(#[trigger] names@[i]@)) ==> r
            == Err::<(), Error>(
            Error::Storage(StorageError::Unsupported("migration expects a legacy application-only database")),
        ),
        !has_multimap && (forall|i: int| 0 <= i < names@.len() ==> legacy_name(#[trigger] names@[i]@))
            && names@.len() != 5 ==> r == Err::<(), Error>(Error::Corrupt),
        !has_multimap && (forall|i: int| 0 <= i < names@.len() ==> legacy_name(#[trigger] names@[i]@))
            && names@.len() == 5 ==> r is Ok,
{
    if has_multimap {
        return Err(Error::Storage(StorageError::Unsupported("migration rejects unsupported multimap tables")));
    }
    let mut i: usize = 0;
    while i < names.len()
        invariant
            !has_multimap,
            i <= names@.len(),
            forall|j: int| 0 <= j < i ==> legacy_name(#[trigger] names@[j]@),
        decreases names@.len() - i,
    {
        if !is_legacy_name(names[i].as_str()) {
            return Err(Error::Storage(StorageError::Unsupported("migration expects a legacy application-only database")));
        }
        i = i + 1;
    }
    if names.len() != 5 {
        return Err(Error::Corrupt);
    }
    Ok(())
}

/// The name of one of the legacy application tables.
pub open spec fn legacy_name(name: Seq<char>) -> bool {
    name == "content"@ || name == "heads"@ || name == "history"@ || name == "requests"@ || name == "claims"@
}

fn is_legacy_name(name: &str) -> (r: bool)
    ensures
        r == legacy_name(name@),
{
    proof {
        reveal_strlit("content");
        reveal_strlit("heads");
        reveal_strlit("history");
        reveal_strlit("requests");
        reveal_strlit("claims");
    }
    string_eq(name, "content") || string_eq(name, "heads") || string_eq(name, "history") || string_eq(
        name,
        "requests",
    ) || string_eq(name, "claims")
}

fn string_eq(a: &str, b: &str) -> (r: bool)
    ensures
        r == (a@ == b@),
{
    let n = a.unicode_len();
    if n != b.unicode_len() {
        return false;
    }
    let mut i: usize = 0;
    while i < n
        invariant
            n == a@.len(),
            n == b@.len(),
            i <= n,
            forall|j: int| 0 <= j < i ==> a@[j] == b@[j],
        decreases n - i,
    {
        if a.get_char(i) != b.get_char(i) {
            return false;
        }
        i = i + 1;
    }
    assert(a@ =~= b@);
    true
}

/// Mark the import's progress in the target's migration table.
pub fn mark_import(target: &mut Database, status: &[u8]) -> (r: Result<(), Error>)
    requires
        status@.len() <= 16,
    ensures
        final(target).failure() == old(target).failure(),
        old(target).failure() is Some ==> r is Err && final(target).contents() == old(target).contents(),
        old(target).failure() is None ==> r is Ok && exists|id: Seq<u8>| final(target).contents() == apply_changes(
            old(target).contents(),
            with_markers(
                Map::<Seq<u8>, Option<Seq<u8>>>::empty().insert(
                    address(Table::Migration, "status".spec_bytes()),
                    Some(status@),
                ),
                id,
            ),
        ),
{
    proof {
        reveal_strlit("status");
        vstd::string::is_ascii_spec_bytes("status");
    }
    let mut tx = match target.begin() {
        Ok(tx) => tx,
        Err(e) => {
            return Err(from_storage(e));
        },
    };
    match tx.put(Table::Migration, "status".as_bytes(), status) {
        Ok(()) => {},
        Err(e) => {
            return Err(from_storage(e));
        },
    }
    let changes = tx.into_changes();
    proof {
        assert(changes.entries().len() > 0) by {
            let s = Map::<Seq<u8>, Option<Seq<u8>>>::empty().insert(
                address(Table::Migration, "status".spec_bytes()),
                Some(status@),
            );
            assert(s.dom().contains(address(Table::Migration, "status".spec_bytes())));
            if s.dom().len() == 0 {
                s.dom().lemma_len0_is_empty();
            }
        }
    }
    let id = target.commit(changes);
    Ok(())
}

/// Copy a page of legacy rows into `table` of the target: every row is
/// checked and absorbed into `hash`, then all are written in one transaction.
pub fn import_page(target: &mut Database, table: Table, rows: &[RawEntry], hash: &mut StreamHasher) -> (r:
    Result<(), Error>)
    requires
        application_table(table),
        old(hash).absorbed().len() + rows_frame(raw_view(rows@)).len() <= u64::MAX,
    ensures
        final(target).failure() == old(target).failure(),
        r is Err ==> final(target).contents() == old(target).contents(),
        !rows_valid(table, raw_view(rows@)) ==> r == Err::<(), Error>(Error::Corrupt),
        rows_valid(table, raw_view(rows@)) ==> final(hash).absorbed() == old(hash).absorbed() + rows_frame(
            raw_view(rows@),
        ),
        rows_valid(table, raw_view(rows@)) && old(target).failure() is Some ==> r is Err,
        rows_valid(table, raw_view(rows@)) && old(target).failure() is None && rows@.len() < MAX_TRANSACTION_KEYS - 2
            && rows_bytes(raw_view(rows@)) <= MAX_TRANSACTION_BYTES - MARKER_RESERVE && (forall|i: int|
            0 <= i < rows@.len() ==> (#[trigger] rows@[i]).1@.len() <= MAX_BYTES_VALUE) ==> r is Ok,
        r is Ok && rows@.len() == 0 ==> final(target).contents() == old(target).contents(),
        r is Ok && rows@.len() > 0 ==> exists|id: Seq<u8>|
            final(target).contents() == apply_changes(
                old(target).contents(),
                with_markers(page_writes(table, raw_view(rows@)), id),
            ),
{
    let ghost rv = raw_view(rows@);
    let mut i: usize = 0;
    while i < rows.len()
        invariant
            rv == raw_view(rows@),
            i <= rows@.len(),
            rows_valid(table, rv.take(i as int)),
            hash.absorbed() == old(hash).absorbed() + rows_frame(rv.take(i as int)),
            old(hash).absorbed().len() + rows_frame(rv).len() <= u64::MAX,
            *target == *old(target),
        decreases rows@.len() - i,
    {
        let row = &rows[i];
        proof {
            assert(rv[i as int] == (row.0@, row.1@));
            lemma_frame_take(rv, i as int);
            lemma_frame_len(rv, i + 1);
        }
        match validate_record(table, row.0.as_slice(), row.1.as_slice()) {
            Ok(()) => {},
            Err(e) => {
                proof {
                    assert(!rows_valid(table, rv));
                    assert(!record_valid(table, rv[i as int].0, rv[i as int].1));
                }
                return Err(Error::Corrupt);
            },
        }
        hash_row(hash, row.0.as_slice(), row.1.as_slice());
        proof {
            assert forall|j: int| 0 <= j < i + 1 implies record_valid(table, #[trigger] rv.take(i + 1)[j].0, rv.take(i + 1)[j].1) by {
                if j < i {
                    assert(rv.take(i + 1)[j] == rv.take(i as int)[j]);
                }
            }
        }
        i = i + 1;
    }
    proof {
        assert(rv.take(i as int) =~= rv);
        lemma_bytes_nonneg(rv);
    }
    let mut tx = match target.begin() {
        Ok(tx) => tx,
        Err(e) => {
            return Err(from_storage(e));
        },
    };
    let ghost base = tx.staged();
    let mut k: usize = 0;
    while k < rows.len()
        invariant
            rv == raw_view(rows@),
            k <= rows@.len(),
            tx.wf(),
            rows_valid(table, rv),
            hash.absorbed() == old(hash).absorbed() + rows_frame(rv),
            application_table(table),
            tx.committed() == old(target).contents(),
            tx.staged() == page_writes(table, rv.take(k as int)),
            tx.staged().dom().finite(),
            tx.staged().dom().len() <= k,
            tx.staged_bytes() <= rows_bytes(rv.take(k as int)),
        decreases rows@.len() - k,
    {
        let row = &rows[k];
        proof {
            assert(rv[k as int] == (row.0@, row.1@));
            assert(row == rows@[k as int]);
            lemma_frame_take(rv, k as int);
            lemma_frame_len(rv, k + 1);
            assert(record_valid(table, rv[k as int].0, rv[k as int].1));
            assert(row.0@.len() <= MAX_KEY_BYTES);
            if k == 0 {
                assert(rv.take(0) =~= Seq::<(Seq<u8>, Seq<u8>)>::empty());
                assert(tx.staged() =~= Map::<Seq<u8>, Option<Seq<u8>>>::empty());
            }
        }
        match tx.put(table, row.0.as_slice(), row.1.as_slice()) {
            Ok(()) => {},
            Err(e) => {
                return Err(from_storage(e));
            },
        }
        k = k + 1;
    }
    let changes = tx.into_changes();
    proof {
        assert(rv.take(k as int) =~= rv);
    }
    proof {
        if rv.len() > 0 {
            let w = page_writes(table, rv);
            assert(w.dom().contains(address(table, rv.last().0)));
            if w.dom().len() == 0 {
                w.dom().lemma_len0_is_empty();
            }
        } else {
            assert(page_writes(table, rv) =~= Map::<Seq<u8>, Option<Seq<u8>>>::empty());
        }
    }
    let id = target.commit(changes);
    Ok(())
}

/// The digest of every row of `table` in the owner, read back page by page:
/// refused where the rows' frame is longer than a digest absorbs.
pub fn table_digest(target: &Database, table: Table) -> (r: Result<[u8; 32], Error>)
    requires
        application_table(table),
    ensures
        target.failure() is Some ==> r is Err,
        target.failure() is None && rows_frame(owner_rows(*target, table)).len() <= u64::MAX ==> match digest_pages(
            owner_rows(*target, table),
            Seq::empty(),
        ) {
            Ok(input) => r matches Ok(d) && d@ == hemera_digest(input),
            Err(e) => r == Err::<[u8; 32], Error>(e),
        },
        rows_frame(owner_rows(*target, table)).len() > u64::MAX ==> r is Err,
{
    let ghost entries = target.entries();
    let ghost all = owner_rows(*target, table);
    let limits = ByteLimits { max_entries: 4096, max_bytes: MAX_TRANSACTION_BYTES - 1024 };
    let mut hash = StreamHasher::new();
    let mut absorbed_len: u64 = 0;
    let ghost mut done: int = 0;
    let mut cursor: Option<Vec<u8>> = None;
    proof {
        assert(all.skip(0) =~= all);
        assert(all.take(0) =~= Seq::<(Seq<u8>, Seq<u8>)>::empty());
        assert(Seq::<u8>::empty() + rows_frame(all.take(0)) =~= Seq::<u8>::empty());
    }
    loop
        invariant
            application_table(table),
            limits == import_limits(),
            entries == target.entries(),
            all == owner_rows(*target, table),
            0 <= done <= all.len(),
            absorbed_len == rows_frame(all.take(done)).len(),
            cursor is None <==> done == 0,
            cursor matches Some(x) ==> done > 0 && x@ == all[done - 1].0 && x@.len() <= MAX_KEY_BYTES,
            done > 0 ==> target.failure() is None,
            hash.absorbed() == rows_frame(all.take(done)),
            rows_frame(all).len() <= u64::MAX && target.failure() is None ==> digest_pages(all, Seq::empty()) == digest_pages(
                all.skip(done),
                rows_frame(all.take(done)),
            ),
        decreases all.len() - done,
    {
        let prefix: [u8; 0] = [];
        let scanned = match &cursor {
            Some(x) => target.scan(table, Some(x.as_slice()), &prefix, limits),
            None => target.scan(table, None, &prefix, limits),
        };
        proof {
            assert(address(table, Seq::<u8>::empty()) =~= seq![table_code(table)]);
            assert(prefix@ =~= Seq::<u8>::empty());
            if cursor is Some {
                let x = cursor->Some_0;
                assert(address(table, x@) =~= seq![table_code(table)] + all[done - 1].0);
                law_page_resumes_after_cursor(entries, seq![table_code(table)], table_code(table), done);
            }
        }
        let page: Vec<RawEntry> = match scanned {
            Ok(p) => p,
            Err(e) => {
                return Err(from_storage(e));
            },
        };
        let ghost pv = raw_view(page@);
        proof {
            let after_address = if cursor is Some {
                Some(address(table, cursor->Some_0@))
            } else {
                None
            };
            assert(select_rows(entries, address(table, prefix@), after_address) == all.skip(done));
            assert(byte_page(all.skip(done), 4096, (MAX_TRANSACTION_BYTES - 1024) as nat, 0) == Ok::<
                Seq<(Seq<u8>, Seq<u8>)>,
                StorageError,
            >(pv));
            lemma_page_prefix(all.skip(done), 4096, (MAX_TRANSACTION_BYTES - 1024) as nat, 0);
        }
        if page.len() == 0 {
            proof {
                lemma_page_outcomes(all.skip(done), 4096, (MAX_TRANSACTION_BYTES - 1024) as nat);
                assert(all.take(done) =~= all);
            }
            return Ok(hash.finalize());
        }
        let mut j: usize = 0;
        while j < page.len()
            invariant
                pv == raw_view(page@),
                0 <= done,
                done + pv.len() <= all.len(),
                pv == all.skip(done).take(pv.len() as int),
                j <= pv.len(),
                all == owner_rows(*target, table),
                hash.absorbed() == rows_frame(all.take(done + j)),
                absorbed_len == rows_frame(all.take(done + j)).len(),
            decreases pv.len() - j,
        {
            let row = &page[j];
            proof {
                assert(pv[j as int] == (row.0@, row.1@));
                assert(all[done + j] == pv[j as int]);
                lemma_frame_take(all, done + j);
                lemma_frame_len(all, done + j + 1);
                lemma_le64(row.0@.len() as u64);
                lemma_le64(row.1@.len() as u64);
            }
            let k = row.0.len() as u64;
            let v = row.1.len() as u64;
            if absorbed_len > u64::MAX - 16 || k > u64::MAX - 16 - absorbed_len || v > u64::MAX - 16 - absorbed_len
                - k {
                proof {
                    assert(row_frame(row.0@, row.1@).len() == 16 + k + v);
                }
                return Err(Error::Limit);
            }
            hash_row(&mut hash, row.0.as_slice(), row.1.as_slice());
            absorbed_len = absorbed_len + 16 + k + v;
            j = j + 1;
        }
        proof {
            assert(all.skip(done).skip(pv.len() as int) =~= all.skip(done + pv.len()));
            assert(rows_frame(all.take(done)) + rows_frame(pv) == rows_frame(all.take(done + pv.len()))) by {
                lemma_frame_concat(all, done, pv.len() as int);
            }
        }
        let last = copy_bytes(page[page.len() - 1].0.as_slice());
        proof {
            assert(pv[pv.len() - 1] == all.skip(done)[pv.len() - 1]);
            done = done + pv.len();
        }
        cursor = Some(last);
    }
}

proof fn lemma_frame_concat(all: Seq<(Seq<u8>, Seq<u8>)>, done: int, n: int)
    requires
        0 <= done,
        0 <= n,
        done + n <= all.len(),
    ensures
        rows_frame(all.take(done)) + rows_frame(all.skip(done).take(n)) == rows_frame(all.take(done + n)),
    decreases n,
{
    if n == 0 {
        assert(all.skip(done).take(0) =~= Seq::<(Seq<u8>, Seq<u8>)>::empty());
        assert(rows_frame(all.take(done)) + Seq::<u8>::empty() =~= rows_frame(all.take(done)));
    } else {
        lemma_frame_concat(all, done, n - 1);
        let p = all.skip(done).take(n);
        assert(p.drop_last() =~= all.skip(done).take(n - 1));
        assert(p.last() == all[done + n - 1]);
        lemma_frame_take(all, done + n - 1);
        assert(rows_frame(all.take(done)) + (rows_frame(p.drop_last()) + row_frame(p.last().0, p.last().1))
            =~= (rows_frame(all.take(done)) + rows_frame(p.drop_last())) + row_frame(p.last().0, p.last().1));
    }
}

/// Read `table` back from the target and compare its digest with the one of
/// the rows imported.
pub fn verify_table(target: &Database, table: Table, expected: &[u8; 32]) -> (r: Result<(), Error>)
    requires
        application_table(table),
    ensures
        target.failure() is Some ==> r is Err,
        target.failure() is None && rows_frame(owner_rows(*target, table)).len() <= u64::MAX ==> match digest_pages(
            owner_rows(*target, table),
            Seq::empty(),
        ) {
            Ok(input) => if hemera_digest(input) == expected@ {
                r is Ok
            } else {
                r == Err::<(), Error>(Error::Corrupt)
            },
            Err(e) => r == Err::<(), Error>(e),
        },
        rows_frame(owner_rows(*target, table)).len() > u64::MAX ==> r is Err,
{
    let actual = table_digest(target, table)?;
    if !crate::bytes::bytes_equal(&actual, expected) {
        return Err(Error::Corrupt);
    }
    Ok(())
}

/// A fresh digest for the rows of one legacy table.
pub fn new_table_hash() -> (h: StreamHasher)
    ensures
        h.absorbed() == Seq::<u8>::empty(),
{
    StreamHasher::new()
}

/// The digest of the rows absorbed so far.
pub fn finish_table_hash(h: &StreamHasher) -> (d: [u8; 32])
    ensures
        d@ == hemera_digest(h.absorbed()),
{
    h.finalize()
}

/// The length of the digest frame of `rows`, if it fits in 64 bits.
pub fn page_frame_len(rows: &[RawEntry]) -> (r: Option<u64>)
    ensures
        r matches Some(n) ==> n == rows_frame(raw_view(rows@)).len(),
        r is None ==> rows_frame(raw_view(rows@)).len() > u64::MAX,
{
    let ghost rv = raw_view(rows@);
    let mut total: u64 = 0;
    let mut i: usize = 0;
    while i < rows.len()
        invariant
            rv == raw_view(rows@),
            i <= rows@.len(),
            total == rows_frame(rv.take(i as int)).len(),
        decreases rows@.len() - i,
    {
        proof {
            assert(rv[i as int] == (rows@[i as int].0@, rows@[i as int].1@));
            lemma_frame_take(rv, i as int);
            lemma_frame_len(rv, i + 1);
            lemma_le64(rows@[i as int].0@.len() as u64);
            lemma_le64(rows@[i as int].1@.len() as u64);
        }
        let k = rows[i].0.len() as u64;
        let v = rows[i].1.len() as u64;
        if total > u64::MAX - 16 || k > u64::MAX - 16 - total || v > u64::MAX - 16 - total - k {
            return None;
        }
        total = total + 16 + k + v;
        i = i + 1;
    }
    proof {
        assert(rv.take(i as int) =~= rv);
    }
    Some(total)
}

/// Import a legacy table whose rows fit one page into `table`, and answer
/// the digest of those rows: refused with `Limit`, before anything is
/// written, where their digest frame is longer than a digest absorbs.
pub fn import_table(target: &mut Database, table: Table, rows: &[RawEntry]) -> (r: Result<[u8; 32], Error>)
    requires
        application_table(table),
    ensures
        final(target).failure() == old(target).failure(),
        r is Err ==> final(target).contents() == old(target).contents(),
        rows_frame(raw_view(rows@)).len() > u64::MAX ==> r == Err::<[u8; 32], Error>(Error::Limit),
        rows_frame(raw_view(rows@)).len() <= u64::MAX ==> {
            &&& !rows_valid(table, raw_view(rows@)) ==> r == Err::<[u8; 32], Error>(Error::Corrupt)
            &&& rows_valid(table, raw_view(rows@)) && old(target).failure() is Some ==> r is Err
            &&& rows_valid(table, raw_view(rows@)) && old(target).failure() is None && rows@.len()
                < MAX_TRANSACTION_KEYS - 2 && rows_bytes(raw_view(rows@)) <= MAX_TRANSACTION_BYTES - MARKER_RESERVE
                && (forall|i: int| 0 <= i < rows@.len() ==> (#[trigger] rows@[i]).1@.len() <= MAX_BYTES_VALUE)
                ==> r is Ok
        },
        r matches Ok(d) ==> d@ == hemera_digest(rows_frame(raw_view(rows@))),
        r is Ok && rows@.len() == 0 ==> final(target).contents() == old(target).contents(),
        r is Ok && rows@.len() > 0 ==> exists|id: Seq<u8>|
            final(target).contents() == apply_changes(
                old(target).contents(),
                with_markers(page_writes(table, raw_view(rows@)), id),
            ),
{
    if page_frame_len(rows).is_none() {
        return Err(Error::Limit);
    }
    let mut hash = new_table_hash();
    proof {
        assert(Seq::<u8>::empty() + rows_frame(raw_view(rows@)) =~= rows_frame(raw_view(rows@)));
    }
    import_page(target, table, rows, &mut hash)?;
    Ok(finish_table_hash(&hash))
}

proof fn lemma_frame_split(rows: Seq<(Seq<u8>, Seq<u8>)>, n: int)
    requires
        0 <= n <= rows.len(),
    ensures
        rows_frame(rows) == rows_frame(rows.take(n)) + rows_frame(rows.skip(n)),
    decreases rows.len(),
{
    if n == rows.len() {
        assert(rows.take(n) =~= rows);
        assert(rows.skip(n) =~= Seq::<(Seq<u8>, Seq<u8>)>::empty());
        assert(rows_frame(rows) + Seq::<u8>::empty() =~= rows_frame(rows));
    } else {
        lemma_frame_split(rows.drop_last(), n);
        assert(rows.drop_last().take(n) =~= rows.take(n));
        assert(rows.drop_last().skip(n) =~= rows.skip(n).drop_last());
        assert(rows.skip(n).last() == rows.last());
        let a = rows_frame(rows.take(n));
        let b = rows_frame(rows.skip(n).drop_last());
        let c = row_frame(rows.last().0, rows.last().1);
        assert((a + b) + c =~= a + (b + c));
    }
}

/// A row that a read-back page can hold on its own.
pub open spec fn row_fits(row: (Seq<u8>, Seq<u8>)) -> bool {
    row.0.len() <= MAX_KEY_BYTES && row.1.len() <= MAX_BYTES_VALUE
}

proof fn lemma_page_ok(rows: Seq<(Seq<u8>, Seq<u8>)>, max_entries: nat, used: nat)
    requires
        forall|i: int| 0 <= i < rows.len() ==> row_fits(#[trigger] rows[i]),
    ensures
        byte_page(rows, max_entries, (MAX_TRANSACTION_BYTES - 1024) as nat, used) is Ok,
        rows.len() > 0 && max_entries > 0 && used == 0 ==> byte_page(
            rows,
            max_entries,
            (MAX_TRANSACTION_BYTES - 1024) as nat,
            used,
        )->Ok_0.len() > 0,
    decreases rows.len(),
{
    if rows.len() > 0 && max_entries > 0 {
        assert(row_fits(rows[0]));
        let (k, v) = rows[0];
        assert forall|i: int| 0 <= i < rows.drop_first().len() implies row_fits(#[trigger] rows.drop_first()[i]) by {
            assert(rows.drop_first()[i] == rows[i + 1]);
        }
        lemma_page_ok(rows.drop_first(), (max_entries - 1) as nat, used + k.len() + v.len());
    }
}

/// Rows that each fit a page are read back whole, in order: the read-back
/// digest absorbs exactly the frames of all rows.
pub proof fn law_read_back_absorbs_every_row(rows: Seq<(Seq<u8>, Seq<u8>)>, input: Seq<u8>)
    requires
        forall|i: int| 0 <= i < rows.len() ==> row_fits(#[trigger] rows[i]),
    ensures
        digest_pages(rows, input) == Ok::<Seq<u8>, Error>(input + rows_frame(rows)),
    decreases rows.len(),
{
    let limits = import_limits();
    lemma_page_ok(rows, limits.max_entries as nat, 0);
    lemma_page_prefix(rows, limits.max_entries as nat, limits.max_bytes as nat, 0);
    let page = byte_page(rows, limits.max_entries as nat, limits.max_bytes as nat, 0)->Ok_0;
    if rows.len() == 0 {
        assert(input + rows_frame(rows) =~= input);
    } else {
        let rest = rows.skip(page.len() as int);
        assert forall|i: int| 0 <= i < rest.len() implies row_fits(#[trigger] rest[i]) by {
            assert(rest[i] == rows[i + page.len()]);
        }
        law_read_back_absorbs_every_row(rest, input + rows_frame(page));
        lemma_frame_split(rows, page.len() as int);
        assert((input + rows_frame(page)) + rows_frame(rest) =~= input + (rows_frame(page) + rows_frame(rest)));
    }
}


/// Copy a legacy application store into `target`: check the table names it
/// lists, mark the import "copying", import each table and read it back
/// against the digest of its rows, validate the links, and mark the import
/// "complete". `tables` holds each legacy table with its rows in key order.
pub fn migrate_tables(
    target: &mut Database,
    names: &Vec<String>,
    has_multimap: bool,
    tables: &Vec<(Table, Vec<RawEntry>)>,
) -> (r: Result<(), Error>)
    requires
        forall|i: int| 0 <= i < tables@.len() ==> application_table(#[trigger] tables@[i].0),
    ensures
        final(target).failure() == old(target).failure(),
        legacy_check(names@, has_multimap) is Err ==> r == legacy_check(names@, has_multimap)
            && final(target).contents() == old(target).contents(),
        old(target).failure() is Some ==> r is Err,
        r is Ok ==> forall|i: int|
            0 <= i < tables@.len() ==> rows_valid((#[trigger] tables@[i]).0, raw_view(tables@[i].1@)),
        r is Ok ==> final(target).contents().dom().contains(address(Table::Migration, "status".spec_bytes()))
            && final(target).contents()[address(Table::Migration, "status".spec_bytes())] == "complete".spec_bytes(),
{
    check_legacy_tables(names, has_multimap)?;
    proof {
        reveal_strlit("copying");
        reveal_strlit("complete");
        vstd::string::is_ascii_spec_bytes("copying");
        vstd::string::is_ascii_spec_bytes("complete");
    }
    let ghost failure = target.failure();
    mark_import(target, "copying".as_bytes())?;
    let mut i: usize = 0;
    while i < tables.len()
        invariant
            i <= tables@.len(),
            target.failure() == failure,
            failure == old(target).failure(),
            failure is None,
            legacy_check(names@, has_multimap) is Ok,
            forall|j: int| 0 <= j < tables@.len() ==> application_table(#[trigger] tables@[j].0),
            forall|j: int| 0 <= j < i ==> rows_valid((#[trigger] tables@[j]).0, raw_view(tables@[j].1@)),
        decreases tables@.len() - i,
    {
        let table = tables[i].0;
        let rows = tables[i].1.as_slice();
        let digest = import_table(target, table, rows)?;
        verify_table(target, table, &digest)?;
        i = i + 1;
    }
    validate_links(target)?;
    let ghost before = target.contents();
    mark_import(target, "complete".as_bytes())?;
    proof {
        let sa = address(Table::Migration, "status".spec_bytes());
        let lt = address(Table::Metadata, "last_transaction".spec_bytes());
        let lc = address(Table::Metadata, "last_commit".spec_bytes());
        assert(sa[0] == table_code(Table::Migration));
        assert(lt[0] == table_code(Table::Metadata));
        assert(lc[0] == table_code(Table::Metadata));
        assert(sa != lt && sa != lc);
    }
    Ok(())
}

} // verus!
