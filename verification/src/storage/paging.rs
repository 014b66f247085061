//! Paged scans: a scan resumed strictly after the last key of a page continues
//! exactly where that page ended, so pages never repeat or skip a row.
use crate::bytes::{has_prefix, lemma_lex_asymmetric, lemma_lex_irreflexive, lemma_lex_transitive, lex_lt};
use crate::ordered::{has_key, sorted};
use crate::storage::database::{MAX_KEY_BYTES, byte_page, select_rows};
use vstd::prelude::*;

verus! {

/// The rows whose address (the table code, then the key) lies after `x`.
pub open spec fn rows_after(rows: Seq<(Seq<u8>, Seq<u8>)>, code: u8, x: Seq<u8>) -> Seq<(Seq<u8>, Seq<u8>)>
    decreases rows.len(),
{
    if rows.len() == 0 {
        Seq::empty()
    } else {
        let rest = rows_after(rows.drop_first(), code, x);
        if lex_lt(x, seq![code] + rows[0].0) {
            seq![rows[0]] + rest
        } else {
            rest
        }
    }
}

/// Rows strictly ascending by address.
pub open spec fn rows_sorted(rows: Seq<(Seq<u8>, Seq<u8>)>, code: u8) -> bool {
    forall|i: int, j: int|
        0 <= i < j < rows.len() ==> lex_lt(seq![code] + #[trigger] rows[i].0, seq![code] + #[trigger] rows[j].0)
}

/// The full address of a selected row is the entry's address.
proof fn lemma_row_address(a: Seq<u8>, prefix: Seq<u8>, code: u8)
    requires
        prefix.len() >= 1,
        prefix[0] == code,
        has_prefix(a, prefix),
    ensures
        seq![code] + a.drop_first() == a,
{
    assert(seq![code] + a.drop_first() =~= a);
}

/// A cursor selects the rows after it.
pub proof fn lemma_select_after(entries: Seq<(Seq<u8>, Vec<u8>)>, prefix: Seq<u8>, code: u8, x: Seq<u8>)
    requires
        prefix.len() >= 1,
        prefix[0] == code,
    ensures
        select_rows(entries, prefix, Some(x)) == rows_after(select_rows(entries, prefix, None), code, x),
    decreases entries.len(),
{
    if entries.len() > 0 {
        lemma_select_after(entries.drop_first(), prefix, code, x);
        let a = entries[0].0;
        if has_prefix(a, prefix) {
            lemma_row_address(a, prefix, code);
            let all = select_rows(entries, prefix, None);
            assert(all.drop_first() =~= select_rows(entries.drop_first(), prefix, None));
            assert(all[0].0 == a.drop_first());
        }
    }
}

/// Every selected row comes from an entry with the prefix.
pub proof fn lemma_select_from(entries: Seq<(Seq<u8>, Vec<u8>)>, prefix: Seq<u8>, code: u8)
    requires
        prefix.len() >= 1,
        prefix[0] == code,
    ensures
        forall|i: int|
            0 <= i < select_rows(entries, prefix, None).len() ==> exists|j: int|
                0 <= j < entries.len() && entries[j].0 == seq![code] + (#[trigger] select_rows(
                    entries,
                    prefix,
                    None,
                )[i]).0 && has_prefix(entries[j].0, prefix),
    decreases entries.len(),
{
    if entries.len() > 0 {
        lemma_select_from(entries.drop_first(), prefix, code);
        let rest = select_rows(entries.drop_first(), prefix, None);
        let all = select_rows(entries, prefix, None);
        let a = entries[0].0;
        assert forall|i: int| 0 <= i < all.len() implies exists|j: int|
            0 <= j < entries.len() && entries[j].0 == seq![code] + (#[trigger] all[i]).0 && has_prefix(
                entries[j].0,
                prefix,
            ) by {
            if has_prefix(a, prefix) {
                lemma_row_address(a, prefix, code);
                if i == 0 {
                    assert(entries[0].0 == seq![code] + all[0].0);
                } else {
                    assert(all[i] == rest[i - 1]);
                    let j = choose|j: int|
                        0 <= j < entries.drop_first().len() && entries.drop_first()[j].0 == seq![code]
                            + (#[trigger] rest[i - 1]).0 && has_prefix(entries.drop_first()[j].0, prefix);
                    assert(entries[j + 1] == entries.drop_first()[j]);
                }
            } else {
                assert(all[i] == rest[i]);
                let j = choose|j: int|
                    0 <= j < entries.drop_first().len() && entries.drop_first()[j].0 == seq![code]
                        + (#[trigger] rest[i]).0 && has_prefix(entries.drop_first()[j].0, prefix);
                assert(entries[j + 1] == entries.drop_first()[j]);
            }
        }
    }
}

/// Sorted entries give rows sorted by address.
pub proof fn lemma_select_sorted(entries: Seq<(Seq<u8>, Vec<u8>)>, prefix: Seq<u8>, code: u8)
    requires
        prefix.len() >= 1,
        prefix[0] == code,
        sorted(entries),
    ensures
        rows_sorted(select_rows(entries, prefix, None), code),
    decreases entries.len(),
{
    if entries.len() > 0 {
        let tail = entries.drop_first();
        assert(sorted(tail)) by {
            assert forall|i: int, j: int| 0 <= i < j < tail.len() implies lex_lt(
                #[trigger] tail[i].0,
                #[trigger] tail[j].0,
            ) by {
                assert(tail[i] == entries[i + 1] && tail[j] == entries[j + 1]);
            }
        }
        lemma_select_sorted(tail, prefix, code);
        let a = entries[0].0;
        if has_prefix(a, prefix) {
            lemma_row_address(a, prefix, code);
            lemma_select_from(tail, prefix, code);
            let rest = select_rows(tail, prefix, None);
            let all = select_rows(entries, prefix, None);
            assert forall|i: int, j: int| 0 <= i < j < all.len() implies lex_lt(
                seq![code] + #[trigger] all[i].0,
                seq![code] + #[trigger] all[j].0,
            ) by {
                assert(all[j] == rest[j - 1]);
                if i == 0 {
                    let k = choose|k: int|
                        0 <= k < tail.len() && tail[k].0 == seq![code] + (#[trigger] rest[j - 1]).0
                            && has_prefix(tail[k].0, prefix);
                    assert(entries[k + 1] == tail[k]);
                    assert(lex_lt(entries[0].0, entries[k + 1].0));
                } else {
                    assert(all[i] == rest[i - 1]);
                }
            }
        }
    }
}

/// Rows after a bound below all of them are all the rows.
proof fn lemma_rows_after_all(rows: Seq<(Seq<u8>, Seq<u8>)>, code: u8, x: Seq<u8>)
    requires
        forall|i: int| 0 <= i < rows.len() ==> lex_lt(x, seq![code] + #[trigger] rows[i].0),
    ensures
        rows_after(rows, code, x) == rows,
    decreases rows.len(),
{
    if rows.len() > 0 {
        let tail = rows.drop_first();
        assert forall|i: int| 0 <= i < tail.len() implies lex_lt(x, seq![code] + #[trigger] tail[i].0) by {
            assert(tail[i] == rows[i + 1]);
        }
        lemma_rows_after_all(tail, code, x);
        assert(seq![rows[0]] + tail =~= rows);
    }
}

/// Resuming after the `k`-th row of sorted rows leaves the rows from `k` on.
pub proof fn lemma_rows_after_skip(rows: Seq<(Seq<u8>, Seq<u8>)>, code: u8, k: int)
    requires
        rows_sorted(rows, code),
        0 < k <= rows.len(),
    ensures
        rows_after(rows, code, seq![code] + rows[k - 1].0) == rows.skip(k),
    decreases rows.len(),
{
    let x = seq![code] + rows[k - 1].0;
    let tail = rows.drop_first();
    assert(rows_sorted(tail, code)) by {
        assert forall|i: int, j: int| 0 <= i < j < tail.len() implies lex_lt(
            seq![code] + #[trigger] tail[i].0,
            seq![code] + #[trigger] tail[j].0,
        ) by {
            assert(tail[i] == rows[i + 1] && tail[j] == rows[j + 1]);
        }
    }
    if k == 1 {
        lemma_lex_irreflexive(x);
        assert forall|i: int| 0 <= i < tail.len() implies lex_lt(x, seq![code] + #[trigger] tail[i].0) by {
            assert(tail[i] == rows[i + 1]);
        }
        lemma_rows_after_all(tail, code, x);
        assert(rows.skip(1) =~= tail);
    } else {
        assert(lex_lt(seq![code] + rows[0].0, x));
        lemma_lex_asymmetric(seq![code] + rows[0].0, x);
        lemma_rows_after_skip(tail, code, k - 1);
        assert(tail[k - 2] == rows[k - 1]);
        assert(tail.skip(k - 1) =~= rows.skip(k));
    }
}

/// A page is the front of the rows it was taken from.
pub proof fn lemma_page_prefix(rows: Seq<(Seq<u8>, Seq<u8>)>, max_entries: nat, max_bytes: nat, used: nat)
    ensures
        byte_page(rows, max_entries, max_bytes, used) matches Ok(p) ==> p.len() <= rows.len() && p
            == rows.take(p.len() as int) && forall|i: int|
            0 <= i < p.len() ==> (#[trigger] p[i]).0.len() <= MAX_KEY_BYTES,
    decreases rows.len(),
{
    if rows.len() > 0 && max_entries > 0 {
        let (k, v) = rows[0];
        lemma_page_prefix(rows.drop_first(), (max_entries - 1) as nat, max_bytes, used + k.len() + v.len());
        match byte_page(rows, max_entries, max_bytes, used) {
            Ok(p) => {
                if p.len() > 0 {
                    let q = p.drop_first();
                    assert(q == rows.drop_first().take(q.len() as int));
                    assert(p =~= rows.take(p.len() as int));
                } else {
                    assert(p =~= rows.take(0));
                }
            },
            Err(_) => {},
        }
    } else {
        match byte_page(rows, max_entries, max_bytes, used) {
            Ok(p) => {
                assert(p =~= rows.take(0));
            },
            Err(_) => {},
        }
    }
}

/// A page comes out empty only from no rows; a page fails only on a row that
/// is too long (a corrupt key) or over a budget.
pub proof fn lemma_page_outcomes(rows: Seq<(Seq<u8>, Seq<u8>)>, max_entries: nat, max_bytes: nat)
    requires
        max_entries > 0,
    ensures
        byte_page(rows, max_entries, max_bytes, 0) matches Ok(p) ==> (p.len() == 0 ==> rows.len() == 0),
        byte_page(rows, max_entries, max_bytes, 0) matches Err(e) ==> (e matches crate::storage::access::StorageError::Corrupt(_)
            || e matches crate::storage::access::StorageError::Limit(_)),
{
    lemma_page_errors(rows, max_entries, max_bytes, 0);
}

proof fn lemma_page_errors(rows: Seq<(Seq<u8>, Seq<u8>)>, max_entries: nat, max_bytes: nat, used: nat)
    ensures
        byte_page(rows, max_entries, max_bytes, used) matches Err(e) ==> (e matches crate::storage::access::StorageError::Corrupt(_)
            || e matches crate::storage::access::StorageError::Limit(_)),
    decreases rows.len(),
{
    if rows.len() > 0 && max_entries > 0 {
        let (k, v) = rows[0];
        lemma_page_errors(rows.drop_first(), (max_entries - 1) as nat, max_bytes, used + k.len() + v.len());
    }
}

/// A selection is empty only when no entry lies under the prefix.
pub proof fn lemma_select_empty(entries: Seq<(Seq<u8>, Vec<u8>)>, prefix: Seq<u8>, a: Seq<u8>)
    requires
        has_key(entries, a),
        has_prefix(a, prefix),
    ensures
        select_rows(entries, prefix, None).len() > 0,
    decreases entries.len(),
{
    if entries[0].0 != a || !has_prefix(entries[0].0, prefix) {
        let j = choose|j: int| 0 <= j < entries.len() && #[trigger] entries[j].0 == a;
        if j > 0 {
            assert(entries.drop_first()[j - 1] == entries[j]);
            lemma_select_empty(entries.drop_first(), prefix, a);
        }
    }
}

/// Two entry sequences hold the same rows under `prefix`: the same keys, with
/// the same values.
pub open spec fn agree_under(e1: Seq<(Seq<u8>, Vec<u8>)>, e2: Seq<(Seq<u8>, Vec<u8>)>, prefix: Seq<u8>) -> bool {
    &&& forall|k: Seq<u8>| has_prefix(k, prefix) ==> (has_key(e1, k) <==> has_key(e2, k))
    &&& forall|i: int, j: int|
        0 <= i < e1.len() && 0 <= j < e2.len() && #[trigger] e1[i].0 == #[trigger] e2[j].0 && has_prefix(
            e1[i].0,
            prefix,
        ) ==> e1[i].1@ == e2[j].1@
}

proof fn lemma_sorted_tail(e: Seq<(Seq<u8>, Vec<u8>)>)
    requires
        sorted(e),
        e.len() > 0,
    ensures
        sorted(e.drop_first()),
        forall|i: int| 0 < i < e.len() ==> lex_lt(e[0].0, #[trigger] e[i].0),
{
    let t = e.drop_first();
    assert forall|i: int, j: int| 0 <= i < j < t.len() implies lex_lt(#[trigger] t[i].0, #[trigger] t[j].0) by {
        assert(t[i] == e[i + 1] && t[j] == e[j + 1]);
    }
}

/// With no key under the prefix, nothing is selected.
proof fn lemma_select_none(e: Seq<(Seq<u8>, Vec<u8>)>, prefix: Seq<u8>)
    requires
        forall|k: Seq<u8>| has_prefix(k, prefix) ==> !has_key(e, k),
    ensures
        select_rows(e, prefix, None) == Seq::<(Seq<u8>, Seq<u8>)>::empty(),
    decreases e.len(),
{
    if e.len() > 0 {
        assert(!has_prefix(e[0].0, prefix)) by {
            if has_prefix(e[0].0, prefix) {
                assert(has_key(e, e[0].0));
            }
        }
        assert forall|k: Seq<u8>| has_prefix(k, prefix) implies !has_key(e.drop_first(), k) by {
            if has_key(e.drop_first(), k) {
                let i = choose|i: int| 0 <= i < e.drop_first().len() && #[trigger] e.drop_first()[i].0 == k;
                assert(e[i + 1] == e.drop_first()[i]);
            }
        }
        lemma_select_none(e.drop_first(), prefix);
    }
}

/// Sorted entries that hold the same rows under a prefix select the same rows.
pub proof fn lemma_select_same_rows(e1: Seq<(Seq<u8>, Vec<u8>)>, e2: Seq<(Seq<u8>, Vec<u8>)>, prefix: Seq<u8>)
    requires
        sorted(e1),
        sorted(e2),
        agree_under(e1, e2, prefix),
    ensures
        select_rows(e1, prefix, None) == select_rows(e2, prefix, None),
    decreases e1.len() + e2.len(),
{
    if e1.len() == 0 {
        assert forall|k: Seq<u8>| has_prefix(k, prefix) implies !has_key(e2, k) by {}
        lemma_select_none(e2, prefix);
    } else if e2.len() == 0 {
        assert forall|k: Seq<u8>| has_prefix(k, prefix) implies !has_key(e1, k) by {}
        lemma_select_none(e1, prefix);
    } else {
        lemma_sorted_tail(e1);
        lemma_sorted_tail(e2);
        let t1 = e1.drop_first();
        let t2 = e2.drop_first();
        let a = e1[0].0;
        let b = e2[0].0;
        if !has_prefix(a, prefix) {
            assert(agree_under(t1, e2, prefix)) by {
                assert forall|k: Seq<u8>| has_prefix(k, prefix) implies (has_key(t1, k) <==> has_key(e2, k)) by {
                    if has_key(t1, k) {
                        let i = choose|i: int| 0 <= i < t1.len() && #[trigger] t1[i].0 == k;
                        assert(e1[i + 1] == t1[i]);
                    }
                    if has_key(e1, k) {
                        let i = choose|i: int| 0 <= i < e1.len() && #[trigger] e1[i].0 == k;
                        if i > 0 {
                            assert(t1[i - 1] == e1[i]);
                        }
                    }
                }
                assert forall|i: int, j: int|
                    0 <= i < t1.len() && 0 <= j < e2.len() && #[trigger] t1[i].0 == #[trigger] e2[j].0
                        && has_prefix(t1[i].0, prefix) implies t1[i].1@ == e2[j].1@ by {
                    assert(e1[i + 1] == t1[i]);
                }
            }
            lemma_select_same_rows(t1, e2, prefix);
        } else if !has_prefix(b, prefix) {
            assert(agree_under(e1, t2, prefix)) by {
                assert forall|k: Seq<u8>| has_prefix(k, prefix) implies (has_key(e1, k) <==> has_key(t2, k)) by {
                    if has_key(t2, k) {
                        let j = choose|j: int| 0 <= j < t2.len() && #[trigger] t2[j].0 == k;
                        assert(e2[j + 1] == t2[j]);
                    }
                    if has_key(e2, k) {
                        let j = choose|j: int| 0 <= j < e2.len() && #[trigger] e2[j].0 == k;
                        if j > 0 {
                            assert(t2[j - 1] == e2[j]);
                        }
                    }
                }
                assert forall|i: int, j: int|
                    0 <= i < e1.len() && 0 <= j < t2.len() && #[trigger] e1[i].0 == #[trigger] t2[j].0
                        && has_prefix(e1[i].0, prefix) implies e1[i].1@ == t2[j].1@ by {
                    assert(e2[j + 1] == t2[j]);
                }
            }
            lemma_select_same_rows(e1, t2, prefix);
        } else {
            assert(has_key(e1, a));
            assert(has_key(e2, a));
            assert(has_key(e2, b));
            assert(has_key(e1, b));
            let j = choose|j: int| 0 <= j < e2.len() && #[trigger] e2[j].0 == a;
            let i = choose|i: int| 0 <= i < e1.len() && #[trigger] e1[i].0 == b;
            if j > 0 {
                if i > 0 {
                    lemma_lex_asymmetric(b, a);
                }
                assert(i == 0) by {
                    if i > 0 {
                        assert(lex_lt(a, b));
                        assert(lex_lt(b, a));
                        lemma_lex_asymmetric(a, b);
                    }
                }
                lemma_lex_irreflexive(a);
            }
            assert(j == 0) by {
                if j > 0 {
                    assert(lex_lt(b, a));
                    if i > 0 {
                        assert(lex_lt(a, b));
                        lemma_lex_asymmetric(a, b);
                    } else {
                        lemma_lex_irreflexive(a);
                    }
                }
            }
            assert(a == b);
            assert(e1[0].1@ == e2[0].1@);
            assert(agree_under(t1, t2, prefix)) by {
                assert forall|k: Seq<u8>| has_prefix(k, prefix) implies (has_key(t1, k) <==> has_key(t2, k)) by {
                    if has_key(t1, k) {
                        let x = choose|x: int| 0 <= x < t1.len() && #[trigger] t1[x].0 == k;
                        assert(e1[x + 1] == t1[x]);
                        assert(lex_lt(a, k));
                        lemma_lex_irreflexive(a);
                        assert(has_key(e2, k));
                        let y = choose|y: int| 0 <= y < e2.len() && #[trigger] e2[y].0 == k;
                        assert(y > 0);
                        assert(t2[y - 1] == e2[y]);
                    }
                    if has_key(t2, k) {
                        let y = choose|y: int| 0 <= y < t2.len() && #[trigger] t2[y].0 == k;
                        assert(e2[y + 1] == t2[y]);
                        assert(lex_lt(b, k));
                        lemma_lex_irreflexive(b);
                        assert(has_key(e1, k));
                        let x = choose|x: int| 0 <= x < e1.len() && #[trigger] e1[x].0 == k;
                        assert(x > 0);
                        assert(t1[x - 1] == e1[x]);
                    }
                }
                assert forall|x: int, y: int|
                    0 <= x < t1.len() && 0 <= y < t2.len() && #[trigger] t1[x].0 == #[trigger] t2[y].0
                        && has_prefix(t1[x].0, prefix) implies t1[x].1@ == t2[y].1@ by {
                    assert(e1[x + 1] == t1[x]);
                    assert(e2[y + 1] == t2[y]);
                }
            }
            lemma_select_same_rows(t1, t2, prefix);
        }
    }
}

/// A cursor that is the address of row `k - 1` of a table scan selects the
/// rows from `k` on: the next page resumes exactly after the last row read.
pub proof fn law_page_resumes_after_cursor(
    entries: Seq<(Seq<u8>, Vec<u8>)>,
    prefix: Seq<u8>,
    code: u8,
    k: int,
)
    requires
        prefix.len() >= 1,
        prefix[0] == code,
        sorted(entries),
        0 < k <= select_rows(entries, prefix, None).len(),
    ensures
        select_rows(entries, prefix, Some(seq![code] + select_rows(entries, prefix, None)[k - 1].0))
            == select_rows(entries, prefix, None).skip(k),
{
    let all = select_rows(entries, prefix, None);
    lemma_select_after(entries, prefix, code, seq![code] + all[k - 1].0);
    lemma_select_sorted(entries, prefix, code);
    lemma_rows_after_skip(all, code, k);
}

} // verus!
