//! Link validation of an application store before its transfer completes:
//! every head, receipt and history position must be backed by its history,
//! content and head, and receipts must match history one to one. A temporary
//! reverse index of receipts lives in migration rows and is removed at the end.
use crate::bytes::{lemma_lex_irreflexive, append_bytes, be64, bytes_equal, copy_bytes, from_be64, has_prefix, lemma_be64, push_be64, read_array32, read_be64};
use crate::ordered::{has_key, lemma_map_of_has_key, lemma_map_of_index, lemma_sorted_unique, map_of, sorted};
use crate::storage::application::{Error, Particle, app_error, decode_head, decode_request, from_storage, make_history_key};
use crate::storage::database::{
    ByteLimits, Database, MAX_BYTES_VALUE, MAX_KEY_BYTES, MAX_TRANSACTION_BYTES, RawEntry, apply_changes,
    byte_page, bytes_of, lookup, overlay, raw_view, select_rows, staged_of, with_markers,
};
use crate::storage::inspection::table_rows;
use crate::storage::paging::{
    agree_under, law_page_resumes_after_cursor, lemma_page_outcomes, lemma_page_prefix, lemma_select_empty,
    lemma_select_from, lemma_select_same_rows, lemma_select_sorted, rows_sorted,
};
use crate::storage::table::{Table, address, table_code};
use crate::storage::validation::{record_valid, validate_record};
use vstd::bytes::spec_u64_from_le_bytes;
use vstd::prelude::*;
use vstd::string::StringSliceAdditionalSpecFns;

verus! {

/// The reverse-index key of a receipt: `r`, the namespace, the big-endian index.
pub open spec fn receipt_index(namespace: Seq<u8>, index: u64) -> Seq<u8> {
    seq![0x72u8] + namespace + be64(index)
}

/// The address prefix of every reverse-index row.
pub open spec fn receipts_prefix() -> Seq<u8> {
    address(Table::Migration, seq![0x72u8])
}

/// The tables whose links are validated, in order.
pub open spec fn link_table(o: int) -> Table {
    if o == 0 {
        Table::Heads
    } else if o == 1 {
        Table::Requests
    } else {
        Table::History
    }
}

pub open spec fn link_limits() -> ByteLimits {
    ByteLimits { max_entries: 4096, max_bytes: (MAX_TRANSACTION_BYTES - 1024) as usize }
}

/// What link validation has written to the reverse index so far, and the last
/// history position seen in the current table.
pub struct Links {
    pub writes: Map<Seq<u8>, Option<Seq<u8>>>,
    pub previous: Option<(Seq<u8>, u64)>,
}

/// Every row of a page has its table's shape.
pub open spec fn rows_valid(o: int, page: Seq<(Seq<u8>, Seq<u8>)>) -> bool {
    forall|i: int| 0 <= i < page.len() ==> record_valid(link_table(o), #[trigger] page[i].0, page[i].1)
}

/// Index the receipts of a page of requests: a position already indexed for
/// another request is a duplicate receipt.
pub open spec fn index_rows(
    c: Map<Seq<u8>, Seq<u8>>,
    writes: Map<Seq<u8>, Option<Seq<u8>>>,
    page: Seq<(Seq<u8>, Seq<u8>)>,
) -> Result<Map<Seq<u8>, Option<Seq<u8>>>, Error>
    decreases page.len(),
{
    if page.len() == 0 {
        Ok(writes)
    } else {
        let key = page[0].0;
        let value = page[0].1;
        let ix = receipt_index(key.take(32), spec_u64_from_le_bytes(value.skip(32).take(8)));
        match lookup(c, writes, Table::Migration, ix, 32) {
            Err(e) => Err(app_error(e)),
            Ok(v) => if v is Some && v->Some_0 != key.skip(32) {
                Err(Error::Corrupt)
            } else {
                index_rows(c, writes.insert(address(Table::Migration, ix), Some(key.skip(32))), page.drop_first())
            },
        }
    }
}

/// Check one row's links; the history position sequence advances.
pub open spec fn link_row(
    c: Map<Seq<u8>, Seq<u8>>,
    writes: Map<Seq<u8>, Option<Seq<u8>>>,
    o: int,
    key: Seq<u8>,
    value: Seq<u8>,
    previous: Option<(Seq<u8>, u64)>,
) -> Result<Option<(Seq<u8>, u64)>, Error> {
    let namespace = key.take(32);
    let expected: int = match previous {
        Some((p, n)) => if p == namespace {
            n + 1
        } else {
            0
        },
        None => 0,
    };
    let index: u64 = if o == 0 {
        spec_u64_from_le_bytes(value.take(8))
    } else if o == 1 {
        spec_u64_from_le_bytes(value.skip(32).take(8))
    } else {
        from_be64(key.skip(32))
    };
    let commit = if o == 0 {
        value.skip(8)
    } else if o == 1 {
        value.skip(40)
    } else {
        value
    };
    let next = if o == 2 {
        Some((namespace, index))
    } else {
        previous
    };
    if o == 2 && (expected > u64::MAX || index != expected) {
        Err(Error::Corrupt)
    } else {
        match lookup(c, writes, Table::History, namespace + be64(index), 32) {
            Err(e) => Err(app_error(e)),
            Ok(v) => if v != Some(commit) {
                Err(Error::Corrupt)
            } else {
                match lookup(c, writes, Table::Content, commit, MAX_BYTES_VALUE as nat) {
                    Err(e) => Err(app_error(e)),
                    Ok(None) => Err(Error::Corrupt),
                    Ok(Some(_)) => match lookup(c, writes, Table::Heads, namespace, 40) {
                        Err(e) => Err(app_error(e)),
                        Ok(None) => Err(Error::Corrupt),
                        Ok(Some(b)) => if b.len() != 40 || index > spec_u64_from_le_bytes(b.take(8)) {
                            Err(Error::Corrupt)
                        } else if o == 2 {
                            match lookup(c, writes, Table::Migration, receipt_index(namespace, index), 32) {
                                Err(e) => Err(app_error(e)),
                                Ok(None) => Err(Error::Corrupt),
                                Ok(Some(_)) => Ok(next),
                            }
                        } else {
                            Ok(next)
                        },
                    },
                }
            },
        }
    }
}

pub open spec fn link_rows(
    c: Map<Seq<u8>, Seq<u8>>,
    writes: Map<Seq<u8>, Option<Seq<u8>>>,
    o: int,
    page: Seq<(Seq<u8>, Seq<u8>)>,
    previous: Option<(Seq<u8>, u64)>,
) -> Result<Option<(Seq<u8>, u64)>, Error>
    decreases page.len(),
{
    if page.len() == 0 {
        Ok(previous)
    } else {
        match link_row(c, writes, o, page[0].0, page[0].1, previous) {
            Err(e) => Err(e),
            Ok(next) => link_rows(c, writes, o, page.drop_first(), next),
        }
    }
}

/// One page: shapes first, then (for requests) the reverse index, then links.
pub open spec fn links_page(c: Map<Seq<u8>, Seq<u8>>, o: int, page: Seq<(Seq<u8>, Seq<u8>)>, st: Links) -> Result<
    Links,
    Error,
> {
    if !rows_valid(o, page) {
        Err(Error::Corrupt)
    } else {
        let indexed = if o == 1 {
            index_rows(c, st.writes, page)
        } else {
            Ok(st.writes)
        };
        match indexed {
            Err(e) => Err(e),
            Ok(w) => match link_rows(c, w, o, page, st.previous) {
                Err(e) => Err(e),
                Ok(p) => Ok(Links { writes: w, previous: p }),
            },
        }
    }
}

pub open spec fn links_pages(c: Map<Seq<u8>, Seq<u8>>, o: int, remaining: Seq<(Seq<u8>, Seq<u8>)>, st: Links) -> Result<
    Links,
    Error,
>
    decreases remaining.len(),
{
    let limits = link_limits();
    match byte_page(remaining, limits.max_entries as nat, limits.max_bytes as nat, 0) {
        Err(e) => Err(app_error(e)),
        Ok(page) => if page.len() == 0 {
            Ok(st)
        } else {
            proof {
                lemma_page_prefix(remaining, limits.max_entries as nat, limits.max_bytes as nat, 0);
            }
            match links_page(c, o, page, st) {
                Err(e) => Err(e),
                Ok(next) => links_pages(c, o, remaining.skip(page.len() as int), next),
            }
        },
    }
}

pub open spec fn links_tables(
    c: Map<Seq<u8>, Seq<u8>>,
    entries: Seq<(Seq<u8>, Vec<u8>)>,
    o: int,
    writes: Map<Seq<u8>, Option<Seq<u8>>>,
) -> Result<Map<Seq<u8>, Option<Seq<u8>>>, Error>
    decreases 3 - o,
{
    if o >= 3 {
        Ok(writes)
    } else {
        match links_pages(c, o, table_rows(entries, link_table(o)), Links { writes, previous: None }) {
            Err(e) => Err(e),
            Ok(st) => links_tables(c, entries, o + 1, st.writes),
        }
    }
}

/// The outcome of link validation over committed rows `c` in order `entries`.
pub open spec fn links_outcome(c: Map<Seq<u8>, Seq<u8>>, entries: Seq<(Seq<u8>, Vec<u8>)>) -> Result<
    Map<Seq<u8>, Option<Seq<u8>>>,
    Error,
> {
    links_tables(c, entries, 0, Map::empty())
}

/// Two row maps agree on every address outside the metadata table.
pub open spec fn agrees_outside(m1: Map<Seq<u8>, Seq<u8>>, m2: Map<Seq<u8>, Seq<u8>>) -> bool {
    forall|a: Seq<u8>|
        !(a.len() >= 1 && a[0] == table_code(Table::Metadata)) ==> (#[trigger] m1.dom().contains(a)
            <==> m2.dom().contains(a)) && (m1.dom().contains(a) ==> m1[a] == m2[a])
}

/// Reverse-index writes: rows under the receipts prefix, never deletions.
pub open spec fn writes_ok(w: Map<Seq<u8>, Option<Seq<u8>>>) -> bool {
    forall|a: Seq<u8>| #[trigger] w.dom().contains(a) ==> has_prefix(a, receipts_prefix()) && a.len() == 42
        && w[a] is Some && w[a]->Some_0.len() == 32
}

/// A read through staged changes is a read of the rows with the changes laid over.
proof fn lemma_lookup_overlay(
    c: Map<Seq<u8>, Seq<u8>>,
    s: Map<Seq<u8>, Option<Seq<u8>>>,
    t: Table,
    k: Seq<u8>,
    max: nat,
)
    requires
        s.dom().contains(address(t, k)) ==> s[address(t, k)] is Some && s[address(t, k)]->Some_0.len() <= max,
    ensures
        lookup(c, s, t, k, max) == lookup(overlay(c, s), Map::empty(), t, k, max),
{
}

/// Rows that agree outside the metadata table read alike in other tables.
proof fn lemma_lookup_agree(
    m: Map<Seq<u8>, Seq<u8>>,
    c: Map<Seq<u8>, Seq<u8>>,
    w: Map<Seq<u8>, Option<Seq<u8>>>,
    t: Table,
    k: Seq<u8>,
    max: nat,
)
    requires
        agrees_outside(m, overlay(c, w)),
        writes_ok(w),
        max >= 32,
        table_code(t) != table_code(Table::Metadata),
    ensures
        lookup(m, Map::empty(), t, k, max) == lookup(c, w, t, k, max),
{
    lemma_lookup_overlay(c, w, t, k, max);
    let a = address(t, k);
    assert(a[0] == table_code(t));
    assert(m.dom().contains(a) <==> overlay(c, w).dom().contains(a));
}

/// Committing staged changes to rows that agree with an overlay keeps them
/// agreeing with the overlay of both.
proof fn lemma_commit_agrees(
    cur: Map<Seq<u8>, Seq<u8>>,
    c: Map<Seq<u8>, Seq<u8>>,
    w: Map<Seq<u8>, Option<Seq<u8>>>,
    s: Map<Seq<u8>, Option<Seq<u8>>>,
    id: Seq<u8>,
)
    requires
        agrees_outside(cur, overlay(c, w)),
    ensures
        agrees_outside(apply_changes(cur, with_markers(s, id)), overlay(c, w.union_prefer_right(s))),
{
    let after = apply_changes(cur, with_markers(s, id));
    let lc = address(Table::Metadata, "last_commit".spec_bytes());
    let lt = address(Table::Metadata, "last_transaction".spec_bytes());
    assert(lc[0] == table_code(Table::Metadata));
    assert(lt[0] == table_code(Table::Metadata));
    assert forall|a: Seq<u8>| !(a.len() >= 1 && a[0] == table_code(Table::Metadata)) implies (
    #[trigger] after.dom().contains(a) <==> overlay(c, w.union_prefer_right(s)).dom().contains(a)) && (
    after.dom().contains(a) ==> after[a] == overlay(c, w.union_prefer_right(s))[a]) by {
        assert(a != lc && a != lt);
        assert(with_markers(s, id).dom().contains(a) == s.dom().contains(a));
        if s.dom().contains(a) {
            assert(with_markers(s, id)[a] == s[a]);
        }
    }
}

fn check_shapes(o: usize, page: &Vec<RawEntry>) -> (ok: bool)
    requires
        o < 3,
    ensures
        ok == rows_valid(o as int, raw_view(page@)),
{
    let table = if o == 0 {
        Table::Heads
    } else if o == 1 {
        Table::Requests
    } else {
        Table::History
    };
    let ghost pv = raw_view(page@);
    let mut i: usize = 0;
    while i < page.len()
        invariant
            i <= page@.len(),
            pv == raw_view(page@),
            table == link_table(o as int),
            forall|j: int| 0 <= j < i ==> record_valid(link_table(o as int), #[trigger] pv[j].0, pv[j].1),
        decreases page@.len() - i,
    {
        if validate_record(table, page[i].0.as_slice(), page[i].1.as_slice()).is_err() {
            assert(!record_valid(link_table(o as int), pv[i as int].0, pv[i as int].1));
            return false;
        }
        i = i + 1;
    }
    true
}

pub open spec fn previous_view(p: Option<(Particle, u64)>) -> Option<(Seq<u8>, u64)> {
    match p {
        Some((n, i)) => Some((n@, i)),
        None => None,
    }
}

/// Check the links of one row; see [`link_row`].
fn check_row(
    db: &Database,
    o: usize,
    key: &[u8],
    value: &[u8],
    previous: &mut Option<(Particle, u64)>,
    Ghost(c): Ghost<Map<Seq<u8>, Seq<u8>>>,
    Ghost(w): Ghost<Map<Seq<u8>, Option<Seq<u8>>>>,
) -> (r: Result<(), Error>)
    requires
        o < 3,
        record_valid(link_table(o as int), key@, value@),
        db.failure() is None,
        agrees_outside(db.contents(), overlay(c, w)),
        writes_ok(w),
    ensures
        match link_row(c, w, o as int, key@, value@, previous_view(*old(previous))) {
            Ok(p) => r is Ok && previous_view(*final(previous)) == p,
            Err(e) => r == Err::<(), Error>(e),
        },
{
    let ghost m = db.contents();
    let namespace = read_array32(key, 0);
    assert(namespace@ =~= key@.take(32));
    let mut index: u64 = 0;
    let mut commit: [u8; 32] = [0u8; 32];
    if o == 0 {
        let head = match decode_head(value) {
            Ok(h) => h,
            Err(e) => {
                return Err(e);
            },
        };
        assert(value@.take(8) =~= value@.subrange(0, 8));
        index = head.index;
        commit = head.commit;
    } else if o == 1 {
        let (_, head) = match decode_request(value) {
            Ok(x) => x,
            Err(e) => {
                return Err(e);
            },
        };
        assert(value@.skip(32).skip(8) =~= value@.skip(40));
        index = head.index;
        commit = head.commit;
    } else {
        index = read_be64(key, 32);
        assert(key@.subrange(32, 40) =~= key@.skip(32));
        let expected: u64 = match previous {
            Some((p, n)) => {
                if bytes_equal(p, &namespace) {
                    if *n == u64::MAX {
                        return Err(Error::Corrupt);
                    }
                    *n + 1
                } else {
                    0
                }
            },
            None => 0,
        };
        if index != expected {
            return Err(Error::Corrupt);
        }
        commit = read_array32(value, 0);
        assert(commit@ =~= value@);
    }
    proof {
        lemma_lookup_agree(m, c, w, Table::History, namespace@ + be64(index), 32);
        lemma_lookup_agree(m, c, w, Table::Content, commit@, MAX_BYTES_VALUE as nat);
        lemma_lookup_agree(m, c, w, Table::Heads, namespace@, 40);
        lemma_lookup_agree(m, c, w, Table::Migration, receipt_index(namespace@, index), 32);
    }
    let history = match db.read(Table::History, make_history_key(&namespace, index).as_slice(), 32) {
        Ok(v) => v,
        Err(e) => {
            return Err(from_storage(e));
        },
    };
    let recorded = match &history {
        Some(v) => bytes_equal(v.as_slice(), &commit),
        None => false,
    };
    if !recorded {
        return Err(Error::Corrupt);
    }
    let content = match db.read(Table::Content, &commit, MAX_BYTES_VALUE) {
        Ok(v) => v,
        Err(e) => {
            return Err(from_storage(e));
        },
    };
    if content.is_none() {
        return Err(Error::Corrupt);
    }
    let selected = match db.read(Table::Heads, &namespace, 40) {
        Ok(Some(b)) => b,
        Ok(None) => {
            return Err(Error::Corrupt);
        },
        Err(e) => {
            return Err(from_storage(e));
        },
    };
    let head = match decode_head(selected.as_slice()) {
        Ok(h) => h,
        Err(e) => {
            return Err(e);
        },
    };
    assert(selected@.take(8) =~= selected@.subrange(0, 8));
    if index > head.index {
        return Err(Error::Corrupt);
    }
    if o == 2 {
        let mut ix: Vec<u8> = Vec::new();
        ix.push(0x72u8);
        crate::bytes::append_bytes(&mut ix, &namespace);
        push_be64(&mut ix, index);
        proof {
            lemma_be64(index);
            assert(ix@ =~= receipt_index(namespace@, index));
        }
        let indexed = match db.read(Table::Migration, ix.as_slice(), 32) {
            Ok(v) => v,
            Err(e) => {
                return Err(from_storage(e));
            },
        };
        if indexed.is_none() {
            return Err(Error::Corrupt);
        }
        *previous = Some((namespace, index));
    }
    Ok(())
}

/// Laying the same changes over rows that agree keeps them agreeing.
proof fn lemma_overlay_agrees(
    cur: Map<Seq<u8>, Seq<u8>>,
    c: Map<Seq<u8>, Seq<u8>>,
    w: Map<Seq<u8>, Option<Seq<u8>>>,
    s: Map<Seq<u8>, Option<Seq<u8>>>,
)
    requires
        agrees_outside(cur, overlay(c, w)),
    ensures
        agrees_outside(overlay(cur, s), overlay(c, w.union_prefer_right(s))),
{
    assert forall|a: Seq<u8>| !(a.len() >= 1 && a[0] == table_code(Table::Metadata)) implies (
    #[trigger] overlay(cur, s).dom().contains(a) <==> overlay(c, w.union_prefer_right(s)).dom().contains(a))
        && (overlay(cur, s).dom().contains(a) ==> overlay(cur, s)[a] == overlay(c, w.union_prefer_right(s))[a]) by {
        assert(cur.dom().contains(a) <==> overlay(c, w).dom().contains(a));
    }
}

/// Index the receipts of a page of requests in one transaction; see [`index_rows`].
fn index_page(
    db: &mut Database,
    page: &Vec<RawEntry>,
    Ghost(c): Ghost<Map<Seq<u8>, Seq<u8>>>,
    Ghost(w): Ghost<Map<Seq<u8>, Option<Seq<u8>>>>,
) -> (r: Result<(), Error>)
    requires
        old(db).failure() is None,
        agrees_outside(old(db).contents(), overlay(c, w)),
        writes_ok(w),
        rows_valid(1, raw_view(page@)),
        page@.len() <= 4096,
    ensures
        final(db).failure() == old(db).failure(),
        match index_rows(c, w, raw_view(page@)) {
            Ok(w2) => r is Ok && agrees_outside(final(db).contents(), overlay(c, w2)) && writes_ok(w2),
            Err(e) => r == Err::<(), Error>(e) && final(db).contents() == old(db).contents(),
        },
{
    let ghost pv = raw_view(page@);
    let ghost cur = db.contents();
    let result = {
        let mut tx = match db.begin() {
            Ok(tx) => tx,
            Err(e) => {
                return Err(from_storage(e));
            },
        };
        let mut i: usize = 0;
        proof {
            assert(pv.skip(0) =~= pv);
            assert(w.union_prefer_right(tx.staged()) =~= w);
        }
        while i < page.len()
            invariant
                i <= page@.len(),
                page@.len() <= 4096,
                pv == raw_view(page@),
                rows_valid(1, pv),
                tx.wf(),
                tx.committed() == cur,
                agrees_outside(cur, overlay(c, w)),
                writes_ok(w),
                writes_ok(w.union_prefer_right(tx.staged())),
                forall|a: Seq<u8>| #[trigger] tx.staged().dom().contains(a) ==> has_prefix(a, receipts_prefix())
                    && a.len() == 42 && tx.staged()[a] is Some && tx.staged()[a]->Some_0.len() == 32,
                tx.staged().dom().finite(),
                tx.staged().dom().len() <= i,
                tx.staged_bytes() <= 73 * i,
                index_rows(c, w, pv) == index_rows(c, w.union_prefer_right(tx.staged()), pv.skip(i as int)),
            decreases page@.len() - i,
        {
            let key = &page[i].0;
            let value = &page[i].1;
            proof {
                assert(pv.skip(i as int)[0] == pv[i as int]);
                assert(pv.skip(i as int).drop_first() =~= pv.skip(i + 1));
                assert(record_valid(Table::Requests, pv[i as int].0, pv[i as int].1));
            }
            let (_, head) = match decode_request(value.as_slice()) {
                Ok(x) => x,
                Err(e) => {
                    return Err(e);
                },
            };
            let namespace = read_array32(key.as_slice(), 0);
            let request = read_array32(key.as_slice(), 32);
            assert(namespace@ =~= key@.take(32));
            assert(request@ =~= key@.skip(32));
            let mut ix: Vec<u8> = Vec::new();
            ix.push(0x72u8);
            append_bytes(&mut ix, &namespace);
            push_be64(&mut ix, head.index);
            proof {
                lemma_be64(head.index);
                assert(ix@ =~= receipt_index(namespace@, head.index));
                let s0 = tx.staged();
                lemma_lookup_overlay(cur, s0, Table::Migration, ix@, 32);
                lemma_overlay_agrees(cur, c, w, s0);
                lemma_lookup_agree(overlay(cur, s0), c, w.union_prefer_right(s0), Table::Migration, ix@, 32);
            }
            let existing = match tx.get(Table::Migration, ix.as_slice(), 32) {
                Ok(v) => v,
                Err(e) => {
                    return Err(from_storage(e));
                },
            };
            let duplicate = match &existing {
                Some(x) => !bytes_equal(x.as_slice(), &request),
                None => false,
            };
            if duplicate {
                return Err(Error::Corrupt);
            }
            let ghost before = tx.staged();
            match tx.put(Table::Migration, ix.as_slice(), &request) {
                Ok(()) => {},
                Err(e) => {
                    return Err(from_storage(e));
                },
            }
            proof {
                let a = address(Table::Migration, ix@);
                assert(a.subrange(0, 2) =~= receipts_prefix());
                assert(has_prefix(a, receipts_prefix()));
                assert(a.len() == 42);
                assert(w.union_prefer_right(tx.staged()) =~= w.union_prefer_right(before).insert(a, Some(key@.skip(32))));
            }
            i = i + 1;
        }
        proof {
            assert(pv.skip(i as int) =~= Seq::<(Seq<u8>, Seq<u8>)>::empty());
        }
        let ghost s = tx.staged();
        (tx.into_changes(), Ghost(s))
    };
    let (changes, Ghost(s)) = result;
    let id = db.commit(changes);
    proof {
        if id is Some {
            lemma_commit_agrees(cur, c, w, s, id->Some_0@);
        } else {
            assert(s.dom().len() == 0);
            assert(s =~= Map::<Seq<u8>, Option<Seq<u8>>>::empty());
            assert(w.union_prefer_right(s) =~= w);
        }
    }
    Ok(())
}

/// Check the links of every row of a page; see [`link_rows`].
fn check_page(
    db: &Database,
    o: usize,
    page: &Vec<RawEntry>,
    previous: &mut Option<(Particle, u64)>,
    Ghost(c): Ghost<Map<Seq<u8>, Seq<u8>>>,
    Ghost(w): Ghost<Map<Seq<u8>, Option<Seq<u8>>>>,
) -> (r: Result<(), Error>)
    requires
        o < 3,
        rows_valid(o as int, raw_view(page@)),
        db.failure() is None,
        agrees_outside(db.contents(), overlay(c, w)),
        writes_ok(w),
    ensures
        match link_rows(c, w, o as int, raw_view(page@), previous_view(*old(previous))) {
            Ok(p) => r is Ok && previous_view(*final(previous)) == p,
            Err(e) => r == Err::<(), Error>(e),
        },
{
    let ghost pv = raw_view(page@);
    let ghost start = previous_view(*previous);
    let mut i: usize = 0;
    proof {
        assert(pv.skip(0) =~= pv);
    }
    while i < page.len()
        invariant
            o < 3,
            i <= page@.len(),
            pv == raw_view(page@),
            rows_valid(o as int, pv),
            db.failure() is None,
            agrees_outside(db.contents(), overlay(c, w)),
            writes_ok(w),
            start == previous_view(*old(previous)),
            link_rows(c, w, o as int, pv, start) == link_rows(c, w, o as int, pv.skip(i as int), previous_view(*previous)),
        decreases page@.len() - i,
    {
        proof {
            assert(pv.skip(i as int)[0] == pv[i as int]);
            assert(pv.skip(i as int).drop_first() =~= pv.skip(i + 1));
        }
        let ghost prev = previous_view(*previous);
        assert(pv[i as int] == (page@[i as int].0@, page@[i as int].1@));
        match check_row(db, o, page[i].0.as_slice(), page[i].1.as_slice(), previous, Ghost(c), Ghost(w)) {
            Ok(()) => {},
            Err(e) => {
                assert(link_row(c, w, o as int, pv[i as int].0, pv[i as int].1, prev) == Err::<Option<(Seq<u8>, u64)>, Error>(e));
                assert(link_rows(c, w, o as int, pv.skip(i as int), prev) == Err::<Option<(Seq<u8>, u64)>, Error>(e));
                assert(link_rows(c, w, o as int, pv, start) == Err::<Option<(Seq<u8>, u64)>, Error>(e));
                return Err(e);
            },
        }
        i = i + 1;
    }
    proof {
        assert(pv.skip(i as int) =~= Seq::<(Seq<u8>, Seq<u8>)>::empty());
    }
    Ok(())
}

/// Rows in two orders of committed entries agree under a table's prefix when
/// the rows agree outside metadata and reverse-index writes.
proof fn lemma_tables_agree(
    cur_e: Seq<(Seq<u8>, Vec<u8>)>,
    ce: Seq<(Seq<u8>, Vec<u8>)>,
    c: Map<Seq<u8>, Seq<u8>>,
    w: Map<Seq<u8>, Option<Seq<u8>>>,
    t: Table,
)
    requires
        sorted(cur_e),
        sorted(ce),
        c == bytes_of(map_of(ce)),
        agrees_outside(bytes_of(map_of(cur_e)), overlay(c, w)),
        writes_ok(w),
        t == Table::Heads || t == Table::Requests || t == Table::History,
    ensures
        table_rows(cur_e, t) == table_rows(ce, t),
{
    let p = address(t, Seq::<u8>::empty());
    assert(p =~= seq![table_code(t)]);
    lemma_sorted_unique(cur_e);
    lemma_sorted_unique(ce);
    assert(agree_under(cur_e, ce, p)) by {
        assert forall|k: Seq<u8>| has_prefix(k, p) implies (has_key(cur_e, k) <==> has_key(ce, k)) by {
            lemma_map_of_has_key(cur_e, k);
            lemma_map_of_has_key(ce, k);
            assert(k.take(1)[0] == k[0]);
            assert(k[0] == table_code(t));
            assert(!w.dom().contains(k)) by {
                if w.dom().contains(k) {
                    assert(k[0] == receipts_prefix()[0]);
                }
            }
            assert(bytes_of(map_of(cur_e)).dom().contains(k) == map_of(cur_e).dom().contains(k));
            assert(c.dom().contains(k) == map_of(ce).dom().contains(k));
        }
        assert forall|i: int, j: int|
            0 <= i < cur_e.len() && 0 <= j < ce.len() && #[trigger] cur_e[i].0 == #[trigger] ce[j].0 && has_prefix(
                cur_e[i].0,
                p,
            ) implies cur_e[i].1@ == ce[j].1@ by {
            let k = cur_e[i].0;
            lemma_map_of_index(cur_e, i);
            lemma_map_of_index(ce, j);
            assert(k.take(1)[0] == k[0]);
            assert(k[0] == table_code(t));
            assert(!w.dom().contains(k)) by {
                if w.dom().contains(k) {
                    assert(k[0] == receipts_prefix()[0]);
                }
            }
            assert(map_of(cur_e).dom().contains(k));
            assert(bytes_of(map_of(cur_e)).dom().contains(k));
            assert(bytes_of(map_of(cur_e))[k] == cur_e[i].1@);
            assert(c[k] == ce[j].1@);
            assert(overlay(c, w)[k] == c[k]);
            assert(bytes_of(map_of(cur_e))[k] == overlay(c, w)[k]);
        }
    }
    lemma_select_same_rows(cur_e, ce, p);
}

/// Validate every page of the table at `o`; see [`links_pages`].
fn link_pass(
    db: &mut Database,
    o: usize,
    Ghost(c): Ghost<Map<Seq<u8>, Seq<u8>>>,
    Ghost(ce): Ghost<Seq<(Seq<u8>, Vec<u8>)>>,
    Ghost(w): Ghost<Map<Seq<u8>, Option<Seq<u8>>>>,
) -> (r: Result<(), Error>)
    requires
        o < 3,
        old(db).failure() is None,
        agrees_outside(old(db).contents(), overlay(c, w)),
        writes_ok(w),
        sorted(ce),
        c == bytes_of(map_of(ce)),
    ensures
        final(db).failure() == old(db).failure(),
        match links_pages(c, o as int, table_rows(ce, link_table(o as int)), Links { writes: w, previous: None }) {
            Ok(st) => r is Ok && agrees_outside(final(db).contents(), overlay(c, st.writes)) && writes_ok(st.writes),
            Err(e) => r == Err::<(), Error>(e),
        },
        exists|w2: Map<Seq<u8>, Option<Seq<u8>>>| writes_ok(w2) && agrees_outside(final(db).contents(), overlay(c, w2)),
{
    let table = if o == 0 {
        Table::Heads
    } else if o == 1 {
        Table::Requests
    } else {
        Table::History
    };
    let limits = ByteLimits { max_entries: 4096, max_bytes: MAX_TRANSACTION_BYTES - 1024 };
    let ghost all = table_rows(ce, table);
    let ghost mut done: int = 0;
    let ghost mut writes = w;
    let mut previous: Option<(Particle, u64)> = None;
    let mut cursor: Option<Vec<u8>> = None;
    proof {
        assert(all.skip(0) =~= all);
    }
    loop
        invariant
            o < 3,
            table == link_table(o as int),
            limits == link_limits(),
            all == table_rows(ce, table),
            sorted(ce),
            c == bytes_of(map_of(ce)),
            db.failure() is None,
            db.failure() == old(db).failure(),
            agrees_outside(db.contents(), overlay(c, writes)),
            writes_ok(writes),
            0 <= done <= all.len(),
            cursor is None <==> done == 0,
            cursor matches Some(x) ==> done > 0 && x@ == all[done - 1].0 && x@.len() <= MAX_KEY_BYTES,
            links_pages(c, o as int, all, Links { writes: w, previous: None }) == links_pages(
                c,
                o as int,
                all.skip(done),
                Links { writes, previous: previous_view(previous) },
            ),
        decreases all.len() - done,
    {
        let prefix: [u8; 0] = [];
        let scanned = match &cursor {
            Some(x) => db.scan(table, Some(x.as_slice()), &prefix, limits),
            None => db.scan(table, None, &prefix, limits),
        };
        let ghost cur_e = db.entries();
        proof {
            assert(prefix@ =~= Seq::<u8>::empty());
            assert(address(table, Seq::<u8>::empty()) =~= seq![table_code(table)]);
        }
        let page: Vec<RawEntry> = match scanned {
            Ok(p) => p,
            Err(e) => {
                proof {
                    lemma_tables_agree(cur_e, ce, c, writes, table);
                    if cursor is Some {
                        let x = cursor->Some_0;
                        assert(address(table, x@) =~= seq![table_code(table)] + all[done - 1].0);
                        law_page_resumes_after_cursor(cur_e, seq![table_code(table)], table_code(table), done);
                    }
                }
                return Err(from_storage(e));
            },
        };
        let ghost pv = raw_view(page@);
        proof {
            lemma_tables_agree(cur_e, ce, c, writes, table);
            if cursor is Some {
                let x = cursor->Some_0;
                assert(address(table, x@) =~= seq![table_code(table)] + all[done - 1].0);
                law_page_resumes_after_cursor(cur_e, seq![table_code(table)], table_code(table), done);
            }
            let after_address = if cursor is Some {
                Some(address(table, cursor->Some_0@))
            } else {
                None
            };
            assert(select_rows(cur_e, address(table, prefix@), after_address) == all.skip(done));
            assert(byte_page(all.skip(done), 4096, (MAX_TRANSACTION_BYTES - 1024) as nat, 0) == Ok::<
                Seq<(Seq<u8>, Seq<u8>)>,
                crate::storage::access::StorageError,
            >(pv));
            lemma_page_prefix(all.skip(done), 4096, (MAX_TRANSACTION_BYTES - 1024) as nat, 0);
            crate::storage::database::lemma_byte_page_len(all.skip(done), 4096, (MAX_TRANSACTION_BYTES - 1024) as nat, 0);
        }
        if page.len() == 0 {
            return Ok(());
        }
        if !check_shapes(o, &page) {
            return Err(Error::Corrupt);
        }
        let ghost before = writes;
        if o == 1 {
            index_page(db, &page, Ghost(c), Ghost(writes))?;
            proof {
                writes = index_rows(c, before, pv)->Ok_0;
            }
        }
        check_page(db, o, &page, &mut previous, Ghost(c), Ghost(writes))?;
        proof {
            assert(pv.len() == page@.len());
            assert(all.skip(done).skip(pv.len() as int) =~= all.skip(done + pv.len()));
        }
        let last = copy_bytes(page[page.len() - 1].0.as_slice());
        proof {
            assert(pv[pv.len() - 1] == all.skip(done)[pv.len() - 1]);
            done = done + pv.len();
        }
        cursor = Some(last);
    }
}

/// Addresses of reverse-index rows.
pub open spec fn receipt_rows(m: Map<Seq<u8>, Seq<u8>>) -> Set<Seq<u8>> {
    m.dom().filter(|a: Seq<u8>| has_prefix(a, receipts_prefix()))
}

/// Two row maps agree outside metadata and the reverse index.
pub open spec fn same_outside_receipts(m1: Map<Seq<u8>, Seq<u8>>, m2: Map<Seq<u8>, Seq<u8>>) -> bool {
    forall|a: Seq<u8>|
        !(a.len() >= 1 && a[0] == table_code(Table::Metadata)) && !has_prefix(a, receipts_prefix()) ==> (
        #[trigger] m1.dom().contains(a) <==> m2.dom().contains(a)) && (m1.dom().contains(a) ==> m1[a] == m2[a])
}

proof fn lemma_outside_receipts(m: Map<Seq<u8>, Seq<u8>>, c: Map<Seq<u8>, Seq<u8>>, w: Map<Seq<u8>, Option<Seq<u8>>>)
    requires
        agrees_outside(m, overlay(c, w)),
        writes_ok(w),
    ensures
        same_outside_receipts(m, c),
{
    assert forall|a: Seq<u8>|
        !(a.len() >= 1 && a[0] == table_code(Table::Metadata)) && !has_prefix(a, receipts_prefix()) implies (
        #[trigger] m.dom().contains(a) <==> c.dom().contains(a)) && (m.dom().contains(a) ==> m[a] == c[a]) by {
        assert(!w.dom().contains(a));
        assert(m.dom().contains(a) <==> overlay(c, w).dom().contains(a));
    }
}

/// Every reverse-index row can be paged: its key within the key limit and its
/// value within the value limit.
pub open spec fn receipts_fit(m: Map<Seq<u8>, Seq<u8>>) -> bool {
    forall|a: Seq<u8>|
        #[trigger] m.dom().contains(a) && has_prefix(a, receipts_prefix()) ==> a.len() <= MAX_KEY_BYTES + 1
            && m[a].len() <= MAX_BYTES_VALUE
}

/// Rows selected under a prefix keep the bounds of the entries they come from.
proof fn lemma_select_fit(entries: Seq<(Seq<u8>, Vec<u8>)>, prefix: Seq<u8>)
    requires
        prefix.len() >= 1,
        forall|j: int|
            0 <= j < entries.len() && has_prefix(#[trigger] entries[j].0, prefix) ==> entries[j].0.len() <= MAX_KEY_BYTES
                + 1 && entries[j].1@.len() <= MAX_BYTES_VALUE,
    ensures
        forall|i: int|
            0 <= i < select_rows(entries, prefix, None).len() ==> (#[trigger] select_rows(entries, prefix, None)[i]).0.len()
                <= MAX_KEY_BYTES && select_rows(entries, prefix, None)[i].1.len() <= MAX_BYTES_VALUE,
    decreases entries.len(),
{
    if entries.len() > 0 {
        assert forall|j: int|
            0 <= j < entries.drop_first().len() && has_prefix(
                #[trigger] entries.drop_first()[j].0,
                prefix,
            ) implies entries.drop_first()[j].0.len() <= MAX_KEY_BYTES + 1 && entries.drop_first()[j].1@.len()
            <= MAX_BYTES_VALUE by {
            assert(entries.drop_first()[j] == entries[j + 1]);
        }
        lemma_select_fit(entries.drop_first(), prefix);
        let rest = select_rows(entries.drop_first(), prefix, None);
        let all = select_rows(entries, prefix, None);
        if has_prefix(entries[0].0, prefix) {
            assert forall|i: int| 0 <= i < all.len() implies (#[trigger] all[i]).0.len() <= MAX_KEY_BYTES
                && all[i].1.len() <= MAX_BYTES_VALUE by {
                if i > 0 {
                    assert(all[i] == rest[i - 1]);
                }
            }
        }
    }
}

/// A page of rows within the key and value limits is never refused.
proof fn lemma_page_fits(rows: Seq<(Seq<u8>, Seq<u8>)>, max_entries: nat, max_bytes: nat, used: nat)
    requires
        MAX_KEY_BYTES + MAX_BYTES_VALUE <= max_bytes,
        forall|i: int| 0 <= i < rows.len() ==> (#[trigger] rows[i]).0.len() <= MAX_KEY_BYTES && rows[i].1.len() <= MAX_BYTES_VALUE,
    ensures
        byte_page(rows, max_entries, max_bytes, used) is Ok,
    decreases rows.len(),
{
    if rows.len() > 0 && max_entries > 0 {
        assert(rows[0].0.len() <= MAX_KEY_BYTES && rows[0].1.len() <= MAX_BYTES_VALUE);
        assert forall|i: int| 0 <= i < rows.drop_first().len() implies (#[trigger] rows.drop_first()[i]).0.len()
            <= MAX_KEY_BYTES && rows.drop_first()[i].1.len() <= MAX_BYTES_VALUE by {
            assert(rows.drop_first()[i] == rows[i + 1]);
        }
        if rows[0].0.len() + rows[0].1.len() <= max_bytes - used {
            lemma_page_fits(
                rows.drop_first(),
                (max_entries - 1) as nat,
                max_bytes,
                used + rows[0].0.len() + rows[0].1.len(),
            );
        }
    }
}

/// Reverse-index rows that fit, laid over by written ones, still fit.
proof fn lemma_receipts_fit_after(m: Map<Seq<u8>, Seq<u8>>, c: Map<Seq<u8>, Seq<u8>>, w: Map<Seq<u8>, Option<Seq<u8>>>)
    requires
        agrees_outside(m, overlay(c, w)),
        writes_ok(w),
        receipts_fit(c),
    ensures
        receipts_fit(m),
{
    assert forall|a: Seq<u8>| #[trigger] m.dom().contains(a) && has_prefix(a, receipts_prefix()) implies a.len()
        <= MAX_KEY_BYTES + 1 && m[a].len() <= MAX_BYTES_VALUE by {
        assert(a.take(2) == receipts_prefix());
        assert(a[0] == a.take(2)[0]);
        assert(receipts_prefix()[0] == table_code(Table::Migration));
        assert(overlay(c, w).dom().contains(a));
        if !w.dom().contains(a) {
            assert(c.dom().contains(a));
        }
    }
}

/// Validate the links of an application store: heads, receipts and history
/// each backed by history, content and a head at or above them, receipts
/// matching history one to one, history contiguous from zero per namespace.
/// The temporary reverse index is removed before success is reported; rows
/// outside metadata and that index are left as they were. Links that hold are
/// reported as such unless a reverse-index row already in the store cannot be
/// paged (see [`receipts_fit`]).
pub fn validate_links(db: &mut Database) -> (r: Result<(), Error>)
    ensures
        final(db).failure() == old(db).failure(),
        old(db).failure() is Some ==> r is Err,
        old(db).failure() is None ==> match links_outcome(old(db).contents(), old(db).entries()) {
            Err(e) => r == Err::<(), Error>(e),
            Ok(_) => r is Ok || !receipts_fit(old(db).contents()),
        },
        r is Ok ==> receipt_rows(final(db).contents()).is_empty(),
        r is Ok ==> sorted(final(db).entries()) && final(db).contents() == bytes_of(map_of(final(db).entries())),
        same_outside_receipts(final(db).contents(), old(db).contents()),
{
    match db.ready() {
        Ok(()) => {},
        Err(e) => {
            return Err(from_storage(e));
        },
    }
    let ghost c = db.contents();
    let ghost ce = db.entries();
    let ghost mut w = Map::<Seq<u8>, Option<Seq<u8>>>::empty();
    proof {
        assert(overlay(c, w) =~= c);
    }
    let mut o: usize = 0;
    while o < 3
        invariant
            o <= 3,
            db.failure() is None,
            db.failure() == old(db).failure(),
            c == old(db).contents(),
            ce == old(db).entries(),
            sorted(ce),
            c == bytes_of(map_of(ce)),
            agrees_outside(db.contents(), overlay(c, w)),
            writes_ok(w),
            links_outcome(c, ce) == links_tables(c, ce, o as int, w),
        decreases 3 - o,
    {
        let ghost next = links_pages(c, o as int, table_rows(ce, link_table(o as int)), Links { writes: w, previous: None });
        match link_pass(db, o, Ghost(c), Ghost(ce), Ghost(w)) {
            Ok(()) => {},
            Err(e) => {
                proof {
                    let w2 = choose|w2: Map<Seq<u8>, Option<Seq<u8>>>| writes_ok(w2) && agrees_outside(db.contents(), overlay(c, w2));
                    lemma_outside_receipts(db.contents(), c, w2);
                }
                return Err(e);
            },
        }
        proof {
            w = next->Ok_0.writes;
        }
        o = o + 1;
    }
    proof {
        lemma_outside_receipts(db.contents(), c, w);
        if receipts_fit(c) {
            lemma_receipts_fit_after(db.contents(), c, w);
        }
    }
    let limits = ByteLimits { max_entries: 4096, max_bytes: MAX_TRANSACTION_BYTES - 1024 };
    loop
        invariant
            db.failure() is None,
            db.failure() == old(db).failure(),
            c == old(db).contents(),
            ce == old(db).entries(),
            links_outcome(c, ce) is Ok,
            limits == link_limits(),
            same_outside_receipts(db.contents(), c),
            receipts_fit(c) ==> receipts_fit(db.contents()),
        decreases receipt_rows(db.contents()).len(),
    {
        let prefix: [u8; 1] = [0x72u8];
        let scanned = db.scan(Table::Migration, None, &prefix, limits);
        let ghost m0 = db.contents();
        let ghost e0 = db.entries();
        let ghost p = address(Table::Migration, prefix@);
        proof {
            assert(prefix@ =~= seq![0x72u8]);
            assert(p == receipts_prefix());
            lemma_page_outcomes(select_rows(e0, p, None), 4096, (MAX_TRANSACTION_BYTES - 1024) as nat);
        }
        proof {
            if receipts_fit(m0) {
                lemma_sorted_unique(e0);
                assert forall|j: int|
                    0 <= j < e0.len() && has_prefix(#[trigger] e0[j].0, p) implies e0[j].0.len() <= MAX_KEY_BYTES + 1
                        && e0[j].1@.len() <= MAX_BYTES_VALUE by {
                    lemma_map_of_index(e0, j);
                    assert(m0.dom().contains(e0[j].0));
                }
                lemma_select_fit(e0, p);
                lemma_page_fits(select_rows(e0, p, None), 4096, (MAX_TRANSACTION_BYTES - 1024) as nat, 0);
            }
        }
        let rows: Vec<RawEntry> = match scanned {
            Ok(rows) => rows,
            Err(e) => {
                return Err(from_storage(e));
            },
        };
        let ghost rv = raw_view(rows@);
        proof {
            lemma_page_prefix(select_rows(e0, p, None), 4096, (MAX_TRANSACTION_BYTES - 1024) as nat, 0);
            crate::storage::database::lemma_byte_page_len(select_rows(e0, p, None), 4096, (MAX_TRANSACTION_BYTES - 1024) as nat, 0);
            lemma_sorted_unique(e0);
            lemma_select_from(e0, p, table_code(Table::Migration));
            let sel = select_rows(e0, p, None);
            assert forall|k: int| 0 <= k < rv.len() implies has_prefix(
                seq![table_code(Table::Migration)] + (#[trigger] rv[k]).0,
                p,
            ) by {
                assert(rv[k] == sel[k]);
                let j = choose|j: int|
                    0 <= j < e0.len() && e0[j].0 == seq![table_code(Table::Migration)] + (#[trigger] sel[k]).0
                        && has_prefix(e0[j].0, p);
            }
        }
        if rows.len() == 0 {
            proof {
                assert forall|a: Seq<u8>| !receipt_rows(m0).contains(a) by {
                    if receipt_rows(m0).contains(a) {
                        lemma_map_of_has_key(e0, a);
                        lemma_select_empty(e0, p, a);
                    }
                }
                assert(receipt_rows(m0) =~= Set::<Seq<u8>>::empty());
            }
            return Ok(());
        }
        let ghost first = seq![table_code(Table::Migration)] + rv[0].0;
        proof {
            lemma_select_from(e0, p, table_code(Table::Migration));
            let sel = select_rows(e0, p, None);
            assert(rv[0] == sel[0]);
            let j = choose|j: int| 0 <= j < e0.len() && e0[j].0 == seq![table_code(Table::Migration)] + (#[trigger] sel[0]).0 && has_prefix(e0[j].0, p);
            lemma_map_of_has_key(e0, e0[j].0);
            assert(has_key(e0, e0[j].0));
            assert(m0.dom().contains(first));
            assert(receipt_rows(m0).contains(first));
        }
        let result = {
            let mut tx = match db.begin() {
                Ok(tx) => tx,
                Err(e) => {
                    return Err(from_storage(e));
                },
            };
            let mut i: usize = 0;
            while i < rows.len()
                invariant
                    i <= rows@.len(),
                    rows@.len() <= 4096,
                    rv == raw_view(rows@),
                    forall|k: int| 0 <= k < rv.len() ==> (#[trigger] rv[k]).0.len() <= MAX_KEY_BYTES,
                    forall|k: int| 0 <= k < rv.len() ==> has_prefix(seq![table_code(Table::Migration)] + (#[trigger] rv[k]).0, p),
                    tx.wf(),
                    tx.committed() == m0,
                    tx.staged().dom().finite(),
                    tx.staged().dom().len() <= i,
                    tx.staged_bytes() <= 64 * i,
                    forall|a: Seq<u8>| #[trigger] tx.staged().dom().contains(a) ==> has_prefix(a, p) && tx.staged()[a] is None,
                    rv.len() > 0,
                    first == seq![table_code(Table::Migration)] + rv[0].0,
                    i > 0 ==> tx.staged().dom().contains(first),
                decreases rows@.len() - i,
            {
                assert(rv[i as int] == (rows@[i as int].0@, rows@[i as int].1@));
                assert(address(Table::Migration, rows@[i as int].0@) =~= seq![table_code(Table::Migration)] + rv[i as int].0);
                match tx.remove(Table::Migration, rows[i].0.as_slice()) {
                    Ok(()) => {},
                    Err(e) => {
                        return Err(from_storage(e));
                    },
                }
                i = i + 1;
            }
            let ghost s = tx.staged();
            (tx.into_changes(), Ghost(s))
        };
        let (changes, Ghost(s)) = result;
        proof {
            vstd::set::axiom_set_contains_len(s.dom(), first);
        }
        let id = db.commit(changes);
        proof {
            let m1 = db.contents();
            let i = id->Some_0@;
            let lc = address(Table::Metadata, "last_commit".spec_bytes());
            let lt = address(Table::Metadata, "last_transaction".spec_bytes());
            assert(lc[0] == table_code(Table::Metadata));
            assert(lt[0] == table_code(Table::Metadata));
            assert(!m1.dom().contains(first));
            assert(receipt_rows(m1).subset_of(receipt_rows(m0).remove(first))) by {
                assert forall|a: Seq<u8>| receipt_rows(m1).contains(a) implies receipt_rows(m0).remove(first).contains(a) by {
                    assert(a.take(1)[0] == a[0]);
                    assert(receipts_prefix()[0] == table_code(Table::Migration));
                    assert(a != lc && a != lt);
                }
            }
            vstd::set_lib::lemma_len_subset(receipt_rows(m1), receipt_rows(m0).remove(first));
            assert forall|a: Seq<u8>|
                !(a.len() >= 1 && a[0] == table_code(Table::Metadata)) && !has_prefix(a, receipts_prefix()) implies (
                #[trigger] m1.dom().contains(a) <==> m0.dom().contains(a)) && (m1.dom().contains(a) ==> m1[a] == m0[a]) by {
                assert(a != lc && a != lt);
                assert(!s.dom().contains(a));
            }
            if receipts_fit(m0) {
                assert forall|a: Seq<u8>| #[trigger] m1.dom().contains(a) && has_prefix(a, receipts_prefix()) implies a.len()
                    <= MAX_KEY_BYTES + 1 && m1[a].len() <= MAX_BYTES_VALUE by {
                    assert(a.take(1)[0] == a[0]);
                    assert(receipts_prefix()[0] == table_code(Table::Migration));
                    assert(a != lc && a != lt);
                    assert(!s.dom().contains(a));
                    assert(m0.dom().contains(a));
                }
            }
            assert(m1.dom().finite()) by {
                assert(m1.dom().subset_of(m0.dom().insert(lc).insert(lt)));
                vstd::set_lib::lemma_len_subset(m1.dom(), m0.dom().insert(lc).insert(lt));
            }
        }
    }
}


/// A head row is backed: the history row at the head's index holds its
/// commit, and the content of that commit is held.
pub open spec fn head_backed(c: Map<Seq<u8>, Seq<u8>>, key: Seq<u8>, value: Seq<u8>) -> bool {
    let h = address(Table::History, key.take(32) + be64(spec_u64_from_le_bytes(value.take(8))));
    let commit = value.skip(8);
    &&& c.dom().contains(h)
    &&& c[h] == commit
    &&& c.dom().contains(address(Table::Content, commit))
}

proof fn lemma_link_rows_heads(c: Map<Seq<u8>, Seq<u8>>, page: Seq<(Seq<u8>, Seq<u8>)>, previous: Option<(Seq<u8>, u64)>)
    requires
        link_rows(c, Map::empty(), 0, page, previous) is Ok,
    ensures
        forall|i: int| 0 <= i < page.len() ==> head_backed(c, (#[trigger] page[i]).0, page[i].1),
    decreases page.len(),
{
    if page.len() > 0 {
        let next = link_row(c, Map::empty(), 0, page[0].0, page[0].1, previous)->Ok_0;
        lemma_link_rows_heads(c, page.drop_first(), next);
        assert forall|i: int| 0 <= i < page.len() implies head_backed(c, (#[trigger] page[i]).0, page[i].1) by {
            if i > 0 {
                assert(page[i] == page.drop_first()[i - 1]);
            }
        }
    }
}

proof fn lemma_links_pages_heads(c: Map<Seq<u8>, Seq<u8>>, remaining: Seq<(Seq<u8>, Seq<u8>)>, st: Links)
    requires
        st.writes == Map::<Seq<u8>, Option<Seq<u8>>>::empty(),
        links_pages(c, 0, remaining, st) is Ok,
    ensures
        forall|i: int| 0 <= i < remaining.len() ==> head_backed(c, (#[trigger] remaining[i]).0, remaining[i].1),
    decreases remaining.len(),
{
    let limits = link_limits();
    lemma_page_prefix(remaining, limits.max_entries as nat, limits.max_bytes as nat, 0);
    lemma_page_outcomes(remaining, limits.max_entries as nat, limits.max_bytes as nat);
    if let Ok(page) = byte_page(remaining, limits.max_entries as nat, limits.max_bytes as nat, 0) {
        if page.len() > 0 {
            let next = links_page(c, 0, page, st)->Ok_0;
            lemma_link_rows_heads(c, page, st.previous);
            lemma_links_pages_heads(c, remaining.skip(page.len() as int), next);
            assert forall|i: int| 0 <= i < remaining.len() implies head_backed(
                c,
                (#[trigger] remaining[i]).0,
                remaining[i].1,
            ) by {
                if i < page.len() {
                    assert(page[i] == remaining[i]);
                } else {
                    assert(remaining.skip(page.len() as int)[i - page.len()] == remaining[i]);
                }
            }
        }
    }
}

/// Every head is backed once links validate: where validation of rows `c`,
/// listed in order by `entries`, succeeds, each head row's commit is the
/// history row at the head's index, and that commit's content is held.
pub proof fn law_validated_heads_are_backed(c: Map<Seq<u8>, Seq<u8>>, entries: Seq<(Seq<u8>, Vec<u8>)>)
    requires
        links_outcome(c, entries) is Ok,
    ensures
        forall|i: int|
            0 <= i < table_rows(entries, Table::Heads).len() ==> head_backed(
                c,
                (#[trigger] table_rows(entries, Table::Heads)[i]).0,
                table_rows(entries, Table::Heads)[i].1,
            ),
{
    let empty = Map::<Seq<u8>, Option<Seq<u8>>>::empty();
    assert(link_table(0) == Table::Heads);
    assert(links_pages(c, 0, table_rows(entries, Table::Heads), Links { writes: empty, previous: None }) is Ok);
    lemma_links_pages_heads(c, table_rows(entries, Table::Heads), Links { writes: empty, previous: None });
}


/// The position of a history row: the big-endian index after the namespace.
pub open spec fn history_position(key: Seq<u8>) -> u64 {
    from_be64(key.skip(32))
}

/// The position a history row must have after `previous` in `namespace`:
/// the next one in the same namespace, else the first.
pub open spec fn next_position(previous: Option<(Seq<u8>, u64)>, namespace: Seq<u8>) -> int {
    match previous {
        Some((p, n)) => if p == namespace {
            n + 1
        } else {
            0
        },
        None => 0,
    }
}

/// The row before row `i`, as namespace and position; `previous` before the first.
pub open spec fn row_before(rows: Seq<(Seq<u8>, Seq<u8>)>, previous: Option<(Seq<u8>, u64)>, i: int) -> Option<
    (Seq<u8>, u64),
> {
    if i == 0 {
        previous
    } else {
        Some((rows[i - 1].0.take(32), history_position(rows[i - 1].0)))
    }
}

/// History rows whose positions run 0, 1, 2, ... in each namespace, after `previous`.
pub open spec fn contiguous_after(rows: Seq<(Seq<u8>, Seq<u8>)>, previous: Option<(Seq<u8>, u64)>) -> bool {
    forall|i: int|
        0 <= i < rows.len() ==> history_position(rows[i].0) == next_position(
            #[trigger] row_before(rows, previous, i),
            rows[i].0.take(32),
        )
}

proof fn lemma_link_rows_history(
    c: Map<Seq<u8>, Seq<u8>>,
    w: Map<Seq<u8>, Option<Seq<u8>>>,
    page: Seq<(Seq<u8>, Seq<u8>)>,
    previous: Option<(Seq<u8>, u64)>,
)
    requires
        link_rows(c, w, 2, page, previous) is Ok,
    ensures
        contiguous_after(page, previous),
        link_rows(c, w, 2, page, previous)->Ok_0 == row_before(page, previous, page.len() as int),
    decreases page.len(),
{
    if page.len() > 0 {
        let next = link_row(c, w, 2, page[0].0, page[0].1, previous)->Ok_0;
        lemma_link_rows_history(c, w, page.drop_first(), next);
        let rest = page.drop_first();
        assert forall|i: int| 0 <= i < page.len() implies history_position(page[i].0) == next_position(
            #[trigger] row_before(page, previous, i),
            page[i].0.take(32),
        ) by {
            if i > 0 {
                assert(page[i] == rest[i - 1]);
                if i > 1 {
                    assert(page[i - 1] == rest[i - 2]);
                }
                assert(row_before(rest, next, i - 1) == row_before(page, previous, i));
            }
        }
        if page.len() > 1 {
            assert(page[page.len() - 1] == rest[rest.len() - 1]);
        }
    }
}

proof fn lemma_history_page(c: Map<Seq<u8>, Seq<u8>>, page: Seq<(Seq<u8>, Seq<u8>)>, st: Links)
    requires
        links_page(c, 2, page, st) is Ok,
    ensures
        contiguous_after(page, st.previous),
        links_page(c, 2, page, st)->Ok_0.previous == row_before(page, st.previous, page.len() as int),
{
    lemma_link_rows_history(c, st.writes, page, st.previous);
}

proof fn lemma_contiguous_join(
    remaining: Seq<(Seq<u8>, Seq<u8>)>,
    n: int,
    previous: Option<(Seq<u8>, u64)>,
)
    requires
        0 < n <= remaining.len(),
        contiguous_after(remaining.take(n), previous),
        contiguous_after(remaining.skip(n), row_before(remaining.take(n), previous, n)),
    ensures
        contiguous_after(remaining, previous),
{
    let page = remaining.take(n);
    let rest = remaining.skip(n);
    let last = row_before(page, previous, n);
    assert forall|i: int| 0 <= i < remaining.len() implies history_position(remaining[i].0)
        == next_position(#[trigger] row_before(remaining, previous, i), remaining[i].0.take(32)) by {
        if i < n {
            assert(page[i] == remaining[i]);
            assert(history_position(page[i].0) == next_position(row_before(page, previous, i), page[i].0.take(32)));
            if i > 0 {
                assert(page[i - 1] == remaining[i - 1]);
            }
            assert(row_before(page, previous, i) == row_before(remaining, previous, i));
        } else {
            let j = i - n;
            assert(rest[j] == remaining[i]);
            assert(history_position(rest[j].0) == next_position(row_before(rest, last, j), rest[j].0.take(32)));
            assert(page[n - 1] == remaining[n - 1]);
            if j > 0 {
                assert(rest[j - 1] == remaining[i - 1]);
            }
            assert(row_before(rest, last, j) == row_before(remaining, previous, i));
        }
    }
}

proof fn lemma_links_pages_history(c: Map<Seq<u8>, Seq<u8>>, remaining: Seq<(Seq<u8>, Seq<u8>)>, st: Links)
    requires
        links_pages(c, 2, remaining, st) is Ok,
    ensures
        contiguous_after(remaining, st.previous),
    decreases remaining.len(),
{
    let limits = link_limits();
    lemma_page_prefix(remaining, limits.max_entries as nat, limits.max_bytes as nat, 0);
    lemma_page_outcomes(remaining, limits.max_entries as nat, limits.max_bytes as nat);
    if let Ok(page) = byte_page(remaining, limits.max_entries as nat, limits.max_bytes as nat, 0) {
        if page.len() > 0 {
            let next = links_page(c, 2, page, st)->Ok_0;
            lemma_history_page(c, page, st);
            lemma_links_pages_history(c, remaining.skip(page.len() as int), next);
            lemma_contiguous_join(remaining, page.len() as int, st.previous);
        }
    }
}

/// History is contiguous once links validate: where validation of rows `c`,
/// listed in order by `entries`, succeeds, the history rows of each namespace
/// sit at positions 0, 1, 2, ... with none missing.
pub proof fn law_validated_history_is_contiguous(c: Map<Seq<u8>, Seq<u8>>, entries: Seq<(Seq<u8>, Vec<u8>)>)
    requires
        links_outcome(c, entries) is Ok,
    ensures
        contiguous_after(table_rows(entries, Table::History), None),
{
    let empty = Map::<Seq<u8>, Option<Seq<u8>>>::empty();
    assert(link_table(0) == Table::Heads);
    assert(link_table(1) == Table::Requests);
    assert(link_table(2) == Table::History);
    let st0 = links_pages(c, 0, table_rows(entries, Table::Heads), Links { writes: empty, previous: None })->Ok_0;
    assert(links_tables(c, entries, 1, st0.writes) is Ok);
    let st1 = links_pages(c, 1, table_rows(entries, Table::Requests), Links { writes: st0.writes, previous: None })->Ok_0;
    assert(links_tables(c, entries, 2, st1.writes) is Ok);
    assert(links_pages(c, 2, table_rows(entries, Table::History), Links { writes: st1.writes, previous: None }) is Ok);
    lemma_links_pages_history(c, table_rows(entries, Table::History), Links { writes: st1.writes, previous: None });
}


/// The position a request's receipt records: its namespace and index.
pub open spec fn receipt_address(row: (Seq<u8>, Seq<u8>)) -> Seq<u8> {
    address(Table::Migration, receipt_index(row.0.take(32), spec_u64_from_le_bytes(row.1.skip(32).take(8))))
}

/// Every reverse-index write is the receipt position of one of `requests`.
pub open spec fn indexed_from(w: Map<Seq<u8>, Option<Seq<u8>>>, requests: Seq<(Seq<u8>, Seq<u8>)>) -> bool {
    forall|a: Seq<u8>| #[trigger] w.dom().contains(a) ==> exists|j: int|
        0 <= j < requests.len() && a == #[trigger] receipt_address(requests[j])
}

/// Some request's receipt records the namespace and position of history row `row`.
pub open spec fn has_receipt(requests: Seq<(Seq<u8>, Seq<u8>)>, row: (Seq<u8>, Seq<u8>)) -> bool {
    exists|j: int|
        0 <= j < requests.len() && (#[trigger] requests[j]).0.take(32) == row.0.take(32)
            && spec_u64_from_le_bytes(requests[j].1.skip(32).take(8)) == history_position(row.0)
}

proof fn lemma_pages_keep_writes(c: Map<Seq<u8>, Seq<u8>>, o: int, remaining: Seq<(Seq<u8>, Seq<u8>)>, st: Links)
    requires
        o == 0 || o == 2,
        links_pages(c, o, remaining, st) is Ok,
    ensures
        links_pages(c, o, remaining, st)->Ok_0.writes == st.writes,
    decreases remaining.len(),
{
    let limits = link_limits();
    lemma_page_prefix(remaining, limits.max_entries as nat, limits.max_bytes as nat, 0);
    if let Ok(page) = byte_page(remaining, limits.max_entries as nat, limits.max_bytes as nat, 0) {
        if page.len() > 0 {
            let next = links_page(c, o, page, st)->Ok_0;
            lemma_pages_keep_writes(c, o, remaining.skip(page.len() as int), next);
        }
    }
}

proof fn lemma_index_rows(
    c: Map<Seq<u8>, Seq<u8>>,
    writes: Map<Seq<u8>, Option<Seq<u8>>>,
    page: Seq<(Seq<u8>, Seq<u8>)>,
    requests: Seq<(Seq<u8>, Seq<u8>)>,
    off: int,
)
    requires
        index_rows(c, writes, page) is Ok,
        indexed_from(writes, requests),
        0 <= off,
        off + page.len() <= requests.len(),
        forall|i: int| 0 <= i < page.len() ==> #[trigger] page[i] == requests[off + i],
    ensures
        indexed_from(index_rows(c, writes, page)->Ok_0, requests),
    decreases page.len(),
{
    if page.len() > 0 {
        let key = page[0].0;
        let value = page[0].1;
        let ix = receipt_index(key.take(32), spec_u64_from_le_bytes(value.skip(32).take(8)));
        let w2 = writes.insert(address(Table::Migration, ix), Some(key.skip(32)));
        assert(page[0] == requests[off]);
        assert(receipt_address(requests[off]) == address(Table::Migration, ix));
        assert forall|a: Seq<u8>| #[trigger] w2.dom().contains(a) implies exists|j: int|
            0 <= j < requests.len() && a == #[trigger] receipt_address(requests[j]) by {
            if a == address(Table::Migration, ix) {
                assert(receipt_address(requests[off]) == a);
            }
        }
        assert forall|i: int| 0 <= i < page.drop_first().len() implies #[trigger] page.drop_first()[i] == requests[(
        off + 1) + i] by {
            assert(page.drop_first()[i] == page[i + 1]);
        }
        lemma_index_rows(c, w2, page.drop_first(), requests, off + 1);
    }
}

proof fn lemma_request_pages(c: Map<Seq<u8>, Seq<u8>>, requests: Seq<(Seq<u8>, Seq<u8>)>, off: int, st: Links)
    requires
        0 <= off <= requests.len(),
        links_pages(c, 1, requests.skip(off), st) is Ok,
        indexed_from(st.writes, requests),
    ensures
        indexed_from(links_pages(c, 1, requests.skip(off), st)->Ok_0.writes, requests),
    decreases requests.len() - off,
{
    let limits = link_limits();
    let remaining = requests.skip(off);
    lemma_page_prefix(remaining, limits.max_entries as nat, limits.max_bytes as nat, 0);
    if let Ok(page) = byte_page(remaining, limits.max_entries as nat, limits.max_bytes as nat, 0) {
        if page.len() > 0 {
            assert forall|i: int| 0 <= i < page.len() implies #[trigger] page[i] == requests[off + i] by {
                assert(page[i] == remaining[i]);
            }
            lemma_index_rows(c, st.writes, page, requests, off);
            let next = links_page(c, 1, page, st)->Ok_0;
            assert(requests.skip(off).skip(page.len() as int) =~= requests.skip(off + page.len()));
            lemma_request_pages(c, requests, off + page.len(), next);
        }
    }
}

proof fn lemma_row_receipt(
    c: Map<Seq<u8>, Seq<u8>>,
    w: Map<Seq<u8>, Option<Seq<u8>>>,
    key: Seq<u8>,
    value: Seq<u8>,
    previous: Option<(Seq<u8>, u64)>,
    requests: Seq<(Seq<u8>, Seq<u8>)>,
)
    requires
        link_row(c, w, 2, key, value, previous) is Ok,
        key.len() == 40,
        receipt_rows(c).is_empty(),
        indexed_from(w, requests),
    ensures
        has_receipt(requests, (key, value)),
{
    let ns = key.take(32);
    let index = history_position(key);
    let a = address(Table::Migration, receipt_index(ns, index));
    assert(a.take(receipts_prefix().len() as int) =~= receipts_prefix());
    assert(has_prefix(a, receipts_prefix()));
    assert(!c.dom().contains(a)) by {
        if c.dom().contains(a) {
            assert(receipt_rows(c).contains(a));
        }
    }
    assert(w.dom().contains(a));
    let j = choose|j: int| 0 <= j < requests.len() && a == #[trigger] receipt_address(requests[j]);
    let rns = requests[j].0.take(32);
    let rix = spec_u64_from_le_bytes(requests[j].1.skip(32).take(8));
    lemma_be64(index);
    lemma_be64(rix);
    assert(address(Table::Migration, receipt_index(rns, rix)).drop_first() =~= receipt_index(rns, rix));
    assert(address(Table::Migration, receipt_index(ns, index)).drop_first() =~= receipt_index(ns, index));
    assert(receipt_index(rns, rix) == receipt_index(ns, index));
    assert(rns =~= receipt_index(rns, rix).subrange(1, 33));
    assert(ns =~= receipt_index(ns, index).subrange(1, 33));
    assert(be64(rix) =~= receipt_index(rns, rix).subrange(33, 41));
    assert(be64(index) =~= receipt_index(ns, index).subrange(33, 41));
}

proof fn lemma_history_receipts(
    c: Map<Seq<u8>, Seq<u8>>,
    remaining: Seq<(Seq<u8>, Seq<u8>)>,
    st: Links,
    requests: Seq<(Seq<u8>, Seq<u8>)>,
)
    requires
        links_pages(c, 2, remaining, st) is Ok,
        receipt_rows(c).is_empty(),
        indexed_from(st.writes, requests),
    ensures
        forall|i: int| 0 <= i < remaining.len() ==> has_receipt(requests, #[trigger] remaining[i]),
    decreases remaining.len(),
{
    let limits = link_limits();
    lemma_page_prefix(remaining, limits.max_entries as nat, limits.max_bytes as nat, 0);
    lemma_page_outcomes(remaining, limits.max_entries as nat, limits.max_bytes as nat);
    if let Ok(page) = byte_page(remaining, limits.max_entries as nat, limits.max_bytes as nat, 0) {
        if page.len() > 0 {
            let next = links_page(c, 2, page, st)->Ok_0;
            lemma_page_receipts(c, st.writes, page, st.previous, requests);
            lemma_history_receipts(c, remaining.skip(page.len() as int), next, requests);
            assert forall|i: int| 0 <= i < remaining.len() implies has_receipt(requests, #[trigger] remaining[i]) by {
                if i < page.len() {
                    assert(page[i] == remaining[i]);
                } else {
                    assert(remaining.skip(page.len() as int)[i - page.len()] == remaining[i]);
                }
            }
        }
    }
}

proof fn lemma_page_receipts(
    c: Map<Seq<u8>, Seq<u8>>,
    w: Map<Seq<u8>, Option<Seq<u8>>>,
    page: Seq<(Seq<u8>, Seq<u8>)>,
    previous: Option<(Seq<u8>, u64)>,
    requests: Seq<(Seq<u8>, Seq<u8>)>,
)
    requires
        rows_valid(2, page),
        link_rows(c, w, 2, page, previous) is Ok,
        receipt_rows(c).is_empty(),
        indexed_from(w, requests),
    ensures
        forall|i: int| 0 <= i < page.len() ==> has_receipt(requests, #[trigger] page[i]),
    decreases page.len(),
{
    if page.len() > 0 {
        assert(record_valid(link_table(2), page[0].0, page[0].1));
        lemma_row_receipt(c, w, page[0].0, page[0].1, previous, requests);
        let next = link_row(c, w, 2, page[0].0, page[0].1, previous)->Ok_0;
        let rest = page.drop_first();
        assert forall|i: int| 0 <= i < rest.len() implies record_valid(link_table(2), #[trigger] rest[i].0, rest[i].1) by {
            assert(rest[i] == page[i + 1]);
        }
        lemma_page_receipts(c, w, rest, next, requests);
        assert forall|i: int| 0 <= i < page.len() implies has_receipt(requests, #[trigger] page[i]) by {
            if i > 0 {
                assert(page[i] == rest[i - 1]);
            }
        }
    }
}

/// Every history position has its receipt once links validate: where
/// validation of rows `c` (holding no reverse-index rows), listed in order by
/// `entries`, succeeds, each history row's namespace and position are those
/// that some request's receipt records.
pub proof fn law_validated_history_has_receipts(c: Map<Seq<u8>, Seq<u8>>, entries: Seq<(Seq<u8>, Vec<u8>)>)
    requires
        links_outcome(c, entries) is Ok,
        receipt_rows(c).is_empty(),
    ensures
        forall|i: int|
            0 <= i < table_rows(entries, Table::History).len() ==> has_receipt(
                table_rows(entries, Table::Requests),
                #[trigger] table_rows(entries, Table::History)[i],
            ),
{
    let empty = Map::<Seq<u8>, Option<Seq<u8>>>::empty();
    let requests = table_rows(entries, Table::Requests);
    assert(link_table(0) == Table::Heads);
    assert(link_table(1) == Table::Requests);
    assert(link_table(2) == Table::History);
    let st0 = links_pages(c, 0, table_rows(entries, Table::Heads), Links { writes: empty, previous: None })->Ok_0;
    lemma_pages_keep_writes(c, 0, table_rows(entries, Table::Heads), Links { writes: empty, previous: None });
    assert(links_tables(c, entries, 1, st0.writes) is Ok);
    assert(requests.skip(0) =~= requests);
    lemma_request_pages(c, requests, 0, Links { writes: st0.writes, previous: None });
    let st1 = links_pages(c, 1, requests, Links { writes: st0.writes, previous: None })->Ok_0;
    assert(links_tables(c, entries, 2, st1.writes) is Ok);
    lemma_history_receipts(c, table_rows(entries, Table::History), Links { writes: st1.writes, previous: None }, requests);
}


/// The first `n` requests are indexed: each one's receipt address holds its
/// request id.
pub open spec fn indexed_upto(w: Map<Seq<u8>, Option<Seq<u8>>>, requests: Seq<(Seq<u8>, Seq<u8>)>, n: int) -> bool {
    forall|j: int|
        0 <= j < n ==> w.dom().contains(#[trigger] receipt_address(requests[j])) && w[receipt_address(requests[j])]
            == Some(requests[j].0.skip(32))
}

/// Among the first `n` requests, two that record one position have one request id.
pub open spec fn shared_positions_agree(requests: Seq<(Seq<u8>, Seq<u8>)>, n: int) -> bool {
    forall|i: int, j: int|
        0 <= i < j < n && receipt_address(#[trigger] requests[i]) == receipt_address(#[trigger] requests[j])
            ==> requests[i].0.skip(32) == requests[j].0.skip(32)
}

/// No two requests record the same namespace and position.
pub open spec fn positions_distinct(requests: Seq<(Seq<u8>, Seq<u8>)>) -> bool {
    forall|i: int, j: int|
        0 <= i < j < requests.len() ==> receipt_address(#[trigger] requests[i]) != receipt_address(
            #[trigger] requests[j],
        )
}

proof fn lemma_index_rows_agree(
    c: Map<Seq<u8>, Seq<u8>>,
    writes: Map<Seq<u8>, Option<Seq<u8>>>,
    page: Seq<(Seq<u8>, Seq<u8>)>,
    requests: Seq<(Seq<u8>, Seq<u8>)>,
    off: int,
)
    requires
        index_rows(c, writes, page) is Ok,
        rows_valid(1, page),
        indexed_upto(writes, requests, off),
        shared_positions_agree(requests, off),
        0 <= off,
        off + page.len() <= requests.len(),
        forall|i: int| 0 <= i < page.len() ==> #[trigger] page[i] == requests[off + i],
    ensures
        indexed_upto(index_rows(c, writes, page)->Ok_0, requests, off + page.len()),
        shared_positions_agree(requests, off + page.len()),
    decreases page.len(),
{
    if page.len() > 0 {
        let key = page[0].0;
        let value = page[0].1;
        let ix = receipt_index(key.take(32), spec_u64_from_le_bytes(value.skip(32).take(8)));
        let a = address(Table::Migration, ix);
        let w2 = writes.insert(a, Some(key.skip(32)));
        assert(page[0] == requests[off]);
        assert(receipt_address(requests[off]) == a);
        assert(record_valid(link_table(1), page[0].0, page[0].1));
        assert forall|i: int, j: int|
            0 <= i < j < off + 1 && receipt_address(#[trigger] requests[i]) == receipt_address(#[trigger] requests[j])
                implies requests[i].0.skip(32) == requests[j].0.skip(32) by {
            if j == off {
                assert(writes.dom().contains(receipt_address(requests[i])));
            }
        }
        assert forall|j: int| 0 <= j < off + 1 implies w2.dom().contains(#[trigger] receipt_address(requests[j]))
            && w2[receipt_address(requests[j])] == Some(requests[j].0.skip(32)) by {
            if j < off && receipt_address(requests[j]) == a {
                assert(writes.dom().contains(receipt_address(requests[j])));
            }
        }
        let rest = page.drop_first();
        assert forall|i: int| 0 <= i < rest.len() implies #[trigger] rest[i] == requests[(off + 1) + i] by {
            assert(rest[i] == page[i + 1]);
        }
        assert forall|i: int| 0 <= i < rest.len() implies record_valid(link_table(1), #[trigger] rest[i].0, rest[i].1) by {
            assert(rest[i] == page[i + 1]);
        }
        lemma_index_rows_agree(c, w2, rest, requests, off + 1);
    }
}

proof fn lemma_request_pages_agree(c: Map<Seq<u8>, Seq<u8>>, requests: Seq<(Seq<u8>, Seq<u8>)>, off: int, st: Links)
    requires
        0 <= off <= requests.len(),
        links_pages(c, 1, requests.skip(off), st) is Ok,
        indexed_upto(st.writes, requests, off),
        shared_positions_agree(requests, off),
    ensures
        shared_positions_agree(requests, requests.len() as int),
        forall|j: int| off <= j < requests.len() ==> (#[trigger] requests[j]).0.len() == 64,
    decreases requests.len() - off,
{
    let limits = link_limits();
    let remaining = requests.skip(off);
    lemma_page_prefix(remaining, limits.max_entries as nat, limits.max_bytes as nat, 0);
    lemma_page_outcomes(remaining, limits.max_entries as nat, limits.max_bytes as nat);
    if let Ok(page) = byte_page(remaining, limits.max_entries as nat, limits.max_bytes as nat, 0) {
        if page.len() > 0 {
            assert forall|i: int| 0 <= i < page.len() implies #[trigger] page[i] == requests[off + i] by {
                assert(page[i] == remaining[i]);
            }
            assert(rows_valid(1, page));
            lemma_index_rows_agree(c, st.writes, page, requests, off);
            let next = links_page(c, 1, page, st)->Ok_0;
            assert(requests.skip(off).skip(page.len() as int) =~= requests.skip(off + page.len()));
            lemma_request_pages_agree(c, requests, off + page.len(), next);
            assert forall|j: int| off <= j < requests.len() implies (#[trigger] requests[j]).0.len() == 64 by {
                if j < off + page.len() {
                    assert(page[j - off] == requests[j]);
                    assert(record_valid(link_table(1), page[j - off].0, page[j - off].1));
                }
            }
        } else {
            assert(remaining.len() == 0);
        }
    }
}

/// Receipts are one to one once links validate: where validation of rows `c`,
/// listed in ascending order by `entries`, succeeds, no two request rows
/// record the same namespace and history position.
pub proof fn law_validated_receipts_are_distinct(c: Map<Seq<u8>, Seq<u8>>, entries: Seq<(Seq<u8>, Vec<u8>)>)
    requires
        links_outcome(c, entries) is Ok,
        sorted(entries),
    ensures
        positions_distinct(table_rows(entries, Table::Requests)),
{
    let empty = Map::<Seq<u8>, Option<Seq<u8>>>::empty();
    let requests = table_rows(entries, Table::Requests);
    assert(link_table(0) == Table::Heads);
    assert(link_table(1) == Table::Requests);
    let st0 = links_pages(c, 0, table_rows(entries, Table::Heads), Links { writes: empty, previous: None })->Ok_0;
    lemma_pages_keep_writes(c, 0, table_rows(entries, Table::Heads), Links { writes: empty, previous: None });
    assert(links_tables(c, entries, 1, st0.writes) is Ok);
    assert(requests.skip(0) =~= requests);
    lemma_request_pages_agree(c, requests, 0, Links { writes: st0.writes, previous: None });
    let code = table_code(Table::Requests);
    assert(address(Table::Requests, Seq::empty()) =~= seq![code]);
    lemma_select_sorted(entries, address(Table::Requests, Seq::empty()), code);
    assert forall|i: int, j: int| 0 <= i < j < requests.len() implies receipt_address(#[trigger] requests[i])
        != receipt_address(#[trigger] requests[j]) by {
        if receipt_address(requests[i]) == receipt_address(requests[j]) {
            let ki = requests[i].0;
            let kj = requests[j].0;
            let ri = receipt_index(ki.take(32), spec_u64_from_le_bytes(requests[i].1.skip(32).take(8)));
            let rj = receipt_index(kj.take(32), spec_u64_from_le_bytes(requests[j].1.skip(32).take(8)));
            assert(address(Table::Migration, ri).drop_first() =~= ri);
            assert(address(Table::Migration, rj).drop_first() =~= rj);
            assert(ki.take(32) =~= ri.subrange(1, 33));
            assert(kj.take(32) =~= rj.subrange(1, 33));
            assert(ki =~= ki.take(32) + ki.skip(32));
            assert(kj =~= kj.take(32) + kj.skip(32));
            assert(ki == kj);
            lemma_lex_irreflexive(seq![code] + ki);
        }
    }
}

} // verus!
