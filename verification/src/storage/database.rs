//! One owner and transaction boundary for all durable views: committed rows,
//! staged changes with read-your-writes, bounded scans, and change identities.
use crate::bytes::{append_bytes, copy_bytes, has_prefix, le64, lex_lt, push_le64, starts_with};
use crate::hash::{hemera_digest, hemera_hash};
use crate::ordered::{OrderedMap, has_key, map_of, unique};
use crate::storage::access::{StorageError, StorageResult};
use crate::storage::table::{
    Table, address, code_valid, is_shard_code, lemma_address_injective, lemma_code_table,
    lemma_table_code, make_address, table_code, table_name, table_of_code, table_valid,
};
use vstd::prelude::*;
use vstd::string::StringSliceAdditionalSpecFns;

verus! {

pub const MAX_TRANSACTION_BYTES: usize = 33_554_432;

pub const MAX_TRANSACTION_KEYS: usize = 150_000;

/// Largest stored value: 16 MiB plus one byte.
pub const MAX_BYTES_VALUE: usize = 16_777_217;

/// Longest key that a table accepts.
pub const MAX_KEY_BYTES: usize = 64;

/// Bytes reserved in every transaction for the two automatic marker records.
pub const MARKER_RESERVE: usize = 91;

#[derive(Debug, Clone, Copy, PartialEq, Eq)]
pub enum Backend {
    Ssd,
    Hdd,
}

#[derive(Debug)]
pub struct Commit<T> {
    pub value: T,
    /// None for a read-only transaction, including an already recorded retry.
    pub change_id: Option<[u8; 32]>,
}

/// What a transaction answers and leaves, over committed rows `c`, once its
/// closure returned `x` with `staged` changes: the closure's error and nothing
/// written; or its value, with no identity and nothing written when nothing was
/// staged, else the identity under which the staged changes and their markers
/// were committed.
pub open spec fn committed_outcome<T>(
    c: Map<Seq<u8>, Seq<u8>>,
    staged: Map<Seq<u8>, Option<Seq<u8>>>,
    x: StorageResult<T>,
    r: StorageResult<Commit<T>>,
    after: Map<Seq<u8>, Seq<u8>>,
) -> bool {
    match x {
        Err(e) => r == Err::<Commit<T>, StorageError>(e) && after == c,
        Ok(v) => r matches Ok(k) && k.value == v && (staged.dom().len() == 0 <==> k.change_id is None) && match k.change_id {
            None => after == c,
            Some(i) => after == apply_changes(c, with_markers(staged, i@)),
        },
    }
}

/// Bounds of a raw scan page: rows and key-plus-value bytes.
#[derive(Clone, Copy)]
pub struct ByteLimits {
    pub max_entries: usize,
    pub max_bytes: usize,
}

impl ByteLimits {
    pub open spec fn valid(self) -> bool {
        0 < self.max_entries <= 4096 && self.max_bytes <= MAX_TRANSACTION_BYTES
    }

    pub fn validate(self) -> (r: StorageResult<()>)
        ensures
            self.valid() ==> r is Ok,
            !self.valid() ==> r == Err::<(), StorageError>(StorageError::Limit("byte scan budget")),
    {
        if self.max_entries == 0 || self.max_entries > 4096 || self.max_bytes > MAX_TRANSACTION_BYTES {
            return Err(StorageError::Limit("byte scan budget"));
        }
        Ok(())
    }
}

pub type RawEntry = (Vec<u8>, Vec<u8>);

/// Staged changes by address: a value to write, or `None` to delete.
pub type Changes = OrderedMap<Option<Vec<u8>>>;

pub open spec fn opt_view(v: Option<Vec<u8>>) -> Option<Seq<u8>> {
    match v {
        Some(b) => Some(b@),
        None => None,
    }
}

pub open spec fn bytes_of(m: Map<Seq<u8>, Vec<u8>>) -> Map<Seq<u8>, Seq<u8>> {
    m.map_values(|v: Vec<u8>| v@)
}

pub open spec fn staged_of(m: Map<Seq<u8>, Option<Vec<u8>>>) -> Map<Seq<u8>, Option<Seq<u8>>> {
    m.map_values(|v: Option<Vec<u8>>| opt_view(v))
}

/// Committed rows with staged changes laid over them.
pub open spec fn overlay(c: Map<Seq<u8>, Seq<u8>>, s: Map<Seq<u8>, Option<Seq<u8>>>) -> Map<
    Seq<u8>,
    Seq<u8>,
> {
    Map::new(
        |k: Seq<u8>|
            if s.dom().contains(k) {
                s[k] is Some
            } else {
                c.dom().contains(k)
            },
        |k: Seq<u8>|
            if s.dom().contains(k) {
                s[k]->Some_0
            } else {
                c[k]
            },
    )
}

/// The bytes that one staged change counts against the transaction budget:
/// its key (without the table code) and its value.
pub open spec fn change_weight(e: (Seq<u8>, Option<Vec<u8>>)) -> int {
    (e.0.len() - 1) + match e.1 {
        Some(v) => v@.len() as int,
        None => 0,
    }
}

pub open spec fn changes_total(s: Seq<(Seq<u8>, Option<Vec<u8>>)>) -> int
    decreases s.len(),
{
    if s.len() == 0 {
        0
    } else {
        changes_total(s.drop_last()) + change_weight(s.last())
    }
}

/// Every staged address names a table and carries its code.
pub open spec fn addresses_valid<V>(s: Seq<(Seq<u8>, V)>) -> bool {
    forall|i: int| 0 <= i < s.len() ==> #[trigger] s[i].0.len() >= 1 && code_valid(s[i].0[0])
}

proof fn lemma_total_nonneg(s: Seq<(Seq<u8>, Option<Vec<u8>>)>)
    requires
        addresses_valid(s),
    ensures
        changes_total(s) >= 0,
        forall|i: int| 0 <= i < s.len() ==> change_weight(#[trigger] s[i]) <= changes_total(s),
    decreases s.len(),
{
    if s.len() > 0 {
        let d = s.drop_last();
        assert forall|i: int| 0 <= i < d.len() implies #[trigger] d[i].0.len() >= 1 && code_valid(d[i].0[0]) by {
            assert(d[i] == s[i]);
        }
        lemma_total_nonneg(d);
        assert(s.last() == s[s.len() - 1]);
        assert forall|i: int| 0 <= i < s.len() implies change_weight(#[trigger] s[i]) <= changes_total(s) by {
            if i < d.len() {
                assert(d[i] == s[i]);
            }
        }
    }
}

proof fn lemma_total_update(s: Seq<(Seq<u8>, Option<Vec<u8>>)>, i: int, x: (Seq<u8>, Option<Vec<u8>>))
    requires
        0 <= i < s.len(),
    ensures
        changes_total(s.update(i, x)) == changes_total(s) - change_weight(s[i]) + change_weight(x),
    decreases s.len(),
{
    let t = s.update(i, x);
    if i == s.len() - 1 {
        assert(t.drop_last() =~= s.drop_last());
    } else {
        assert(t.drop_last() =~= s.drop_last().update(i, x));
        assert(s.drop_last()[i] == s[i]);
        lemma_total_update(s.drop_last(), i, x);
    }
}

proof fn lemma_total_insert(s: Seq<(Seq<u8>, Option<Vec<u8>>)>, p: int, x: (Seq<u8>, Option<Vec<u8>>))
    requires
        0 <= p <= s.len(),
    ensures
        changes_total(s.insert(p, x)) == changes_total(s) + change_weight(x),
    decreases s.len(),
{
    let t = s.insert(p, x);
    if p == s.len() {
        assert(t.drop_last() =~= s);
    } else {
        assert(t.drop_last() =~= s.drop_last().insert(p, x));
        lemma_total_insert(s.drop_last(), p, x);
    }
}

/// The framing of one change in a change identity: table name, key, presence
/// flag and value, each variable part preceded by its length.
pub open spec fn change_frame(e: (Seq<u8>, Option<Seq<u8>>)) -> Seq<u8> {
    let name = table_name(table_of_code(e.0[0])).spec_bytes();
    let key = e.0.drop_first();
    le64(name.len() as u64) + name + le64(key.len() as u64) + key + match e.1 {
        Some(v) => seq![1u8] + le64(v.len() as u64) + v,
        None => seq![0u8],
    }
}

pub open spec fn batch_frame(s: Seq<(Seq<u8>, Option<Seq<u8>>)>) -> Seq<u8>
    decreases s.len(),
{
    if s.len() == 0 {
        Seq::empty()
    } else {
        batch_frame(s.drop_last()) + change_frame(s.last())
    }
}

pub open spec fn changes_view(s: Seq<(Seq<u8>, Option<Vec<u8>>)>) -> Seq<(Seq<u8>, Option<Seq<u8>>)> {
    s.map_values(|e: (Seq<u8>, Option<Vec<u8>>)| (e.0, opt_view(e.1)))
}

/// The identity of a batch: the Hemera digest of a domain tag and every change,
/// in address order (table name, then key).
pub open spec fn change_id_spec(s: Seq<(Seq<u8>, Option<Seq<u8>>)>) -> Seq<u8> {
    hemera_digest("bbg/database-batch/v1\0".spec_bytes() + batch_frame(s))
}

/// Compute the identity of a staged batch.
pub fn change_id(changes: &Changes) -> (id: [u8; 32])
    requires
        addresses_valid(changes.entries()),
    ensures
        id@ == change_id_spec(changes_view(changes.entries())),
{
    let ghost s = changes_view(changes.entries());
    let mut buf = copy_bytes("bbg/database-batch/v1\0".as_bytes());
    let ghost domain = buf@;
    let n = changes.len();
    let mut i: usize = 0;
    while i < n
        invariant
            n == changes.entries().len(),
            i <= n,
            s == changes_view(changes.entries()),
            addresses_valid(changes.entries()),
            buf@ == domain + batch_frame(s.take(i as int)),
        decreases n - i,
    {
        let (addr, value) = changes.entry(i);
        assert(addr@.len() >= 1 && code_valid(addr@[0]));
        let name = Table::from_code(addr[0]).name().as_bytes();
        let ghost before = buf@;
        push_le64(&mut buf, name.len() as u64);
        append_bytes(&mut buf, name);
        let key_len = addr.len() - 1;
        push_le64(&mut buf, key_len as u64);
        let mut j: usize = 1;
        while j < addr.len()
            invariant
                1 <= j <= addr@.len(),
                buf@ == before + le64(name@.len() as u64) + name@ + le64(key_len as u64) + addr@.subrange(1, j as int),
            decreases addr@.len() - j,
        {
            buf.push(addr[j]);
            assert(addr@.subrange(1, j + 1) =~= addr@.subrange(1, j as int).push(addr@[j as int]));
            j = j + 1;
        }
        match value {
            Some(v) => {
                buf.push(1u8);
                push_le64(&mut buf, v.len() as u64);
                append_bytes(&mut buf, v.as_slice());
            },
            None => {
                buf.push(0u8);
            },
        }
        proof {
            let e = s[i as int];
            assert(e == (addr@, opt_view(*value)));
            assert(addr@.subrange(1, addr@.len() as int) =~= addr@.drop_first());
            assert(s.take(i + 1).drop_last() =~= s.take(i as int));
            assert(s.take(i + 1).last() == e);
            assert(buf@ =~= before + change_frame(e));
        }
        i = i + 1;
    }
    assert(s.take(n as int) =~= s);
    hemera_hash(buf.as_slice())
}

/// A transaction reads committed rows through its staged changes.
/// What staging `value` (`None` to delete) at `key` of `table` answers, given
/// the changes staged so far and their bytes: the record shape, then the key
/// count (a new address), then the byte budget decide.
pub open spec fn stage_result(
    staged: Map<Seq<u8>, Option<Seq<u8>>>,
    staged_bytes: int,
    table: Table,
    key: Seq<u8>,
    value: Option<Seq<u8>>,
) -> StorageResult<()> {
    let a = address(table, key);
    let fresh = !staged.dom().contains(a);
    let old_weight = if fresh {
        0
    } else {
        key.len() + match staged[a] {
            Some(v) => v.len() as int,
            None => 0,
        }
    };
    let new_total = staged_bytes - old_weight + key.len() + match value {
        Some(v) => v.len() as int,
        None => 0,
    };
    if key.len() > MAX_KEY_BYTES || (value matches Some(v) && v.len() > MAX_BYTES_VALUE) {
        Err(StorageError::Limit("transaction record"))
    } else if fresh && staged.dom().len() >= MAX_TRANSACTION_KEYS - 2 {
        Err(StorageError::Limit("transaction key count"))
    } else if new_total > MAX_TRANSACTION_BYTES - MARKER_RESERVE {
        Err(StorageError::Limit("transaction bytes"))
    } else {
        Ok(())
    }
}

/// The bytes staged after a successful staging of `value` at `key` of `table`.
pub open spec fn stage_bytes(
    staged: Map<Seq<u8>, Option<Seq<u8>>>,
    staged_bytes: int,
    table: Table,
    key: Seq<u8>,
    value: Option<Seq<u8>>,
) -> int {
    let a = address(table, key);
    let old_weight = if !staged.dom().contains(a) {
        0
    } else {
        key.len() + match staged[a] {
            Some(v) => v.len() as int,
            None => 0,
        }
    };
    staged_bytes - old_weight + key.len() + match value {
        Some(v) => v.len() as int,
        None => 0,
    }
}

pub struct Transaction<'a> {
    engine: &'a OrderedMap<Vec<u8>>,
    changes: Changes,
    bytes: usize,
}

/// The outcome of a read, by value.
pub open spec fn read_view(r: StorageResult<Option<Vec<u8>>>) -> Result<Option<Seq<u8>>, StorageError> {
    match r {
        Ok(v) => Ok(opt_view(v)),
        Err(e) => Err(e),
    }
}

/// What `Transaction::get` returns for `table`/`key` with budget `max`.
pub open spec fn lookup(
    committed: Map<Seq<u8>, Seq<u8>>,
    staged: Map<Seq<u8>, Option<Seq<u8>>>,
    table: Table,
    key: Seq<u8>,
    max: nat,
) -> Result<Option<Seq<u8>>, StorageError> {
    let a = address(table, key);
    if key.len() > MAX_KEY_BYTES || max > MAX_BYTES_VALUE {
        Err(StorageError::Limit("byte read budget"))
    } else if staged.dom().contains(a) {
        match staged[a] {
            None => Ok(None),
            Some(v) => if v.len() > max {
                Err(StorageError::Limit("value exceeds read budget"))
            } else {
                Ok(Some(v))
            },
        }
    } else if committed.dom().contains(a) {
        if committed[a].len() > max {
            Err(StorageError::Limit("database value exceeds read budget"))
        } else {
            Ok(Some(committed[a]))
        }
    } else {
        Ok(None)
    }
}

/// The rows that a scan selects, in address order: addresses under the
/// composite prefix and, with a cursor, strictly after it; keys lose their table code.
pub open spec fn select_rows(
    entries: Seq<(Seq<u8>, Vec<u8>)>,
    prefix: Seq<u8>,
    after: Option<Seq<u8>>,
) -> Seq<(Seq<u8>, Seq<u8>)>
    decreases entries.len(),
{
    if entries.len() == 0 {
        Seq::empty()
    } else {
        let rest = select_rows(entries.drop_first(), prefix, after);
        let (a, v) = entries[0];
        if has_prefix(a, prefix) && match after {
            Some(c) => lex_lt(c, a),
            None => true,
        } {
            seq![(a.drop_first(), v@)] + rest
        } else {
            rest
        }
    }
}

/// The page that a scan keeps from the selected rows: at most `max_entries`,
/// stopping before a row that would exceed the remaining byte budget.
pub open spec fn byte_page(rows: Seq<(Seq<u8>, Seq<u8>)>, max_entries: nat, max_bytes: nat, used: nat) -> Result<
    Seq<(Seq<u8>, Seq<u8>)>,
    StorageError,
>
    decreases rows.len(),
{
    if rows.len() == 0 || max_entries == 0 {
        Ok(Seq::empty())
    } else {
        let (k, v) = rows[0];
        if k.len() > MAX_KEY_BYTES {
            Err(StorageError::Corrupt("database key length"))
        } else if v.len() > MAX_BYTES_VALUE {
            Err(StorageError::Limit("database value length"))
        } else if k.len() + v.len() > max_bytes {
            Err(StorageError::Limit("database row exceeds page budget"))
        } else if k.len() + v.len() > max_bytes - used {
            Ok(Seq::empty())
        } else {
            match byte_page(rows.drop_first(), (max_entries - 1) as nat, max_bytes, used + k.len() + v.len()) {
                Ok(r) => Ok(seq![(k, v)] + r),
                Err(e) => Err(e),
            }
        }
    }
}

/// A page holds at most `max_entries` rows.
pub proof fn lemma_byte_page_len(rows: Seq<(Seq<u8>, Seq<u8>)>, max_entries: nat, max_bytes: nat, used: nat)
    ensures
        byte_page(rows, max_entries, max_bytes, used) matches Ok(page) ==> page.len() <= max_entries,
    decreases rows.len(),
{
    if rows.len() > 0 && max_entries > 0 {
        let (k, v) = rows[0];
        lemma_byte_page_len(rows.drop_first(), (max_entries - 1) as nat, max_bytes, used + k.len() + v.len());
    }
}

pub open spec fn raw_view(s: Seq<RawEntry>) -> Seq<(Seq<u8>, Seq<u8>)> {
    s.map_values(|e: RawEntry| (e.0@, e.1@))
}

pub open spec fn scan_view(r: StorageResult<Vec<RawEntry>>) -> Result<Seq<(Seq<u8>, Seq<u8>)>, StorageError> {
    match r {
        Ok(v) => Ok(raw_view(v@)),
        Err(e) => Err(e),
    }
}

/// The committed scan of `table`: keys under `prefix`, after `after`, within `limits`.
pub open spec fn engine_scan(
    entries: Seq<(Seq<u8>, Vec<u8>)>,
    table: Table,
    after: Option<Seq<u8>>,
    prefix: Seq<u8>,
    limits: ByteLimits,
) -> Result<Seq<(Seq<u8>, Seq<u8>)>, StorageError> {
    byte_page(
        select_rows(
            entries,
            address(table, prefix),
            match after {
                Some(a) => Some(address(table, a)),
                None => None,
            },
        ),
        limits.max_entries as nat,
        limits.max_bytes as nat,
        0,
    )
}

/// Scan the committed rows of `table`; see [`engine_scan`].
fn scan_engine(
    engine: &OrderedMap<Vec<u8>>,
    table: Table,
    after: Option<&[u8]>,
    prefix: &[u8],
    limits: ByteLimits,
) -> (r: StorageResult<Vec<RawEntry>>)
    requires
        table_valid(table),
        limits.valid(),
    ensures
        scan_view(r) == engine_scan(
            engine.entries(),
            table,
            match after {
                Some(a) => Some(a@),
                None => None,
            },
            prefix@,
            limits,
        ),
{
    let ghost all = engine.entries();
    let cprefix = make_address(table, prefix);
    let cafter: Option<Vec<u8>> = match after {
        Some(a) => Some(make_address(table, a)),
        None => None,
    };
    let ghost sa: Option<Seq<u8>> = opt_view(cafter);
    assert(sa == match after {
        Some(x) => Some(address(table, x@)),
        None => None::<Seq<u8>>,
    });
    let ghost sel = select_rows(all, cprefix@, sa);
    let mut page: Vec<RawEntry> = Vec::new();
    let mut used: usize = 0;
    let n = engine.len();
    let mut i: usize = 0;
    assert(all.skip(0) =~= all);
    proof {
        match byte_page(sel, limits.max_entries as nat, limits.max_bytes as nat, 0) {
            Ok(t) => {
                assert(raw_view(page@) + t =~= t);
            },
            Err(_) => {},
        }
    }
    while i < n && page.len() < limits.max_entries
        invariant
            all == engine.entries(),
            n == all.len(),
            i <= n,
            limits.valid(),
            page@.len() <= limits.max_entries,
            used <= limits.max_bytes,
            sel == select_rows(all, cprefix@, sa),
            sa == opt_view(cafter),
            sa == match after {
                Some(x) => Some(address(table, x@)),
                None => None::<Seq<u8>>,
            },
            cprefix@ == address(table, prefix@),
            byte_page(sel, limits.max_entries as nat, limits.max_bytes as nat, 0) == match byte_page(
                select_rows(all.skip(i as int), cprefix@, sa),
                (limits.max_entries - page@.len()) as nat,
                limits.max_bytes as nat,
                used as nat,
            ) {
                Ok(t) => Ok(raw_view(page@) + t),
                Err(e) => Err(e),
            },
        decreases n - i,
    {
        let (a, v) = engine.entry(i);
        proof {
            assert(all.skip(i as int)[0] == all[i as int]);
            assert(all.skip(i as int).drop_first() =~= all.skip(i + 1));
        }
        let after_ok = match &cafter {
            Some(c) => match crate::bytes::compare_bytes(c.as_slice(), a.as_slice()) {
                crate::bytes::ByteOrder::Less => true,
                _ => false,
            },
            None => true,
        };
        let selected = starts_with(a.as_slice(), cprefix.as_slice()) && after_ok;
        proof {
            assert(after_ok == match sa {
                Some(c) => lex_lt(c, a@),
                None => true,
            });
            let row = (a@.drop_first(), v@);
            if selected {
                assert(select_rows(all.skip(i as int), cprefix@, sa) == seq![row] + select_rows(
                    all.skip(i + 1),
                    cprefix@,
                    sa,
                ));
            } else {
                assert(select_rows(all.skip(i as int), cprefix@, sa) == select_rows(
                    all.skip(i + 1),
                    cprefix@,
                    sa,
                ));
            }
        }
        if selected {
            assert(cprefix@.len() >= 1);
            let key_len = a.len() - 1;
            proof {
                let row = (a@.drop_first(), v@);
                assert((seq![row] + select_rows(all.skip(i + 1), cprefix@, sa))[0] == row);
                assert((seq![row] + select_rows(all.skip(i + 1), cprefix@, sa)).drop_first()
                    =~= select_rows(all.skip(i + 1), cprefix@, sa));
            }
            if key_len > MAX_KEY_BYTES {
                assert(byte_page(select_rows(all.skip(i as int), cprefix@, sa), (limits.max_entries - page@.len()) as nat,
                    limits.max_bytes as nat, used as nat) == Err::<Seq<(Seq<u8>, Seq<u8>)>, StorageError>(StorageError::Corrupt("database key length")));
                return Err(StorageError::Corrupt("database key length"));
            }
            if v.len() > MAX_BYTES_VALUE {
                assert(byte_page(select_rows(all.skip(i as int), cprefix@, sa), (limits.max_entries - page@.len()) as nat,
                    limits.max_bytes as nat, used as nat) == Err::<Seq<(Seq<u8>, Seq<u8>)>, StorageError>(StorageError::Limit("database value length")));
                return Err(StorageError::Limit("database value length"));
            }
            let bytes = key_len + v.len();
            if bytes > limits.max_bytes {
                return Err(StorageError::Limit("database row exceeds page budget"));
            }
            if bytes > limits.max_bytes - used {
                assert(raw_view(page@) + Seq::empty() =~= raw_view(page@));
                return Ok(page);
            }
            let mut key: Vec<u8> = Vec::new();
            let mut j: usize = 1;
            while j < a.len()
                invariant
                    1 <= j <= a@.len(),
                    key@ =~= a@.subrange(1, j as int),
                decreases a@.len() - j,
            {
                key.push(a[j]);
                j = j + 1;
            }
            assert(key@ =~= a@.drop_first());
            let value = copy_bytes(v.as_slice());
            let ghost before = raw_view(page@);
            page.push((key, value));
            used = used + bytes;
            proof {
                assert(raw_view(page@) =~= before.push((a@.drop_first(), v@)));
                let tail = byte_page(
                    select_rows(all.skip(i + 1), cprefix@, sa),
                    (limits.max_entries - page@.len()) as nat,
                    limits.max_bytes as nat,
                    used as nat,
                );
                match tail {
                    Ok(t) => {
                        assert(before + (seq![(a@.drop_first(), v@)] + t) =~= raw_view(page@) + t);
                    },
                    Err(_) => {},
                }
            }
        }
        i = i + 1;
    }
    proof {
        if i == n {
            assert(all.skip(i as int).len() == 0);
        }
        assert(raw_view(page@) + Seq::empty() =~= raw_view(page@));
    }
    Ok(page)
}

impl<'a> Transaction<'a> {
    /// Rows committed before this transaction began, by address.
    pub closed spec fn committed(&self) -> Map<Seq<u8>, Seq<u8>> {
        bytes_of(self.engine@)
    }

    /// Committed entries in address order.
    pub closed spec fn committed_entries(&self) -> Seq<(Seq<u8>, Vec<u8>)> {
        self.engine.entries()
    }

    /// Staged changes by address.
    pub closed spec fn staged(&self) -> Map<Seq<u8>, Option<Seq<u8>>> {
        staged_of(self.changes@)
    }

    /// Staged changes in address order.
    pub closed spec fn staged_entries(&self) -> Seq<(Seq<u8>, Option<Vec<u8>>)> {
        self.changes.entries()
    }

    /// Bytes staged so far against the transaction budget.
    pub closed spec fn staged_bytes(&self) -> int {
        self.bytes as int
    }

    /// Rows as this transaction sees them.
    pub open spec fn visible(&self) -> Map<Seq<u8>, Seq<u8>> {
        overlay(self.committed(), self.staged())
    }

    /// Every staged address carries the code of a table.
    #[verifier::type_invariant]
    closed spec fn addresses_inv(&self) -> bool {
        addresses_valid(self.changes.entries())
    }

    pub closed spec fn wf(&self) -> bool {
        &&& self.bytes as int == changes_total(self.changes.entries())
        &&& self.bytes <= MAX_TRANSACTION_BYTES - MARKER_RESERVE
        &&& self.changes.entries().len() <= MAX_TRANSACTION_KEYS - 2
        &&& self.committed_entries() == self.engine.entries()
        &&& self.changes@.dom().finite()
    }

    pub(crate) fn new(engine: &'a OrderedMap<Vec<u8>>) -> (tx: Transaction<'a>)
        ensures
            tx.wf(),
            tx.committed() == bytes_of(engine@),
            tx.committed_entries() == engine.entries(),
            tx.staged() == Map::<Seq<u8>, Option<Seq<u8>>>::empty(),
            tx.staged_entries() == Seq::<(Seq<u8>, Option<Vec<u8>>)>::empty(),
            tx.staged_bytes() == 0,
    {
        let tx = Transaction { engine, changes: OrderedMap::new(), bytes: 0 };
        assert(tx.staged() =~= Map::<Seq<u8>, Option<Seq<u8>>>::empty());
        tx
    }

    /// The staged changes, consuming the transaction.
    pub fn into_changes(self) -> (c: Changes)
        ensures
            c.entries() == self.staged_entries(),
            staged_of(c@) == self.staged(),
            addresses_valid(c.entries()),
            c.entries().len() == self.staged().dom().len(),
            self.staged().dom().finite(),
    {
        proof {
            use_type_invariant(&self);
            use_type_invariant(&self.changes);
            self.changes.lemma_wf();
            crate::ordered::lemma_unique_len(self.changes.entries());
            assert(self.staged().dom() =~= self.changes@.dom());
        }
        self.changes
    }

    /// Read `key` in `table` through the staged changes.
    pub fn get(&self, table: Table, key: &[u8], max: usize) -> (r: StorageResult<Option<Vec<u8>>>)
        requires
            table_valid(table),
        ensures
            read_view(r) == lookup(self.committed(), self.staged(), table, key@, max as nat),
    {
        if key.len() > MAX_KEY_BYTES || max > MAX_BYTES_VALUE {
            return Err(StorageError::Limit("byte read budget"));
        }
        let a = make_address(table, key);
        match self.changes.get(a.as_slice()) {
            Some(staged) => {
                match staged {
                    Some(v) => {
                        if v.len() > max {
                            Err(StorageError::Limit("value exceeds read budget"))
                        } else {
                            Ok(Some(copy_bytes(v.as_slice())))
                        }
                    },
                    None => Ok(None),
                }
            },
            None => {
                match self.engine.get(a.as_slice()) {
                    Some(v) => {
                        if v.len() > max {
                            Err(StorageError::Limit("database value exceeds read budget"))
                        } else {
                            Ok(Some(copy_bytes(v.as_slice())))
                        }
                    },
                    None => Ok(None),
                }
            },
        }
    }

    /// Stage a write (`Some`) or deletion (`None`) of `key` in `table`.
    pub fn stage(&mut self, table: Table, key: &[u8], value: Option<&[u8]>) -> (r: StorageResult<()>)
        requires
            old(self).wf(),
            table_valid(table),
        ensures
            r == stage_result(
                old(self).staged(),
                old(self).staged_bytes(),
                table,
                key@,
                match value {
                    Some(v) => Some(v@),
                    None => None,
                },
            ),
            r is Ok ==> final(self).staged_bytes() == stage_bytes(
                old(self).staged(),
                old(self).staged_bytes(),
                table,
                key@,
                match value {
                    Some(v) => Some(v@),
                    None => None,
                },
            ),
            final(self).wf(),
            final(self).committed() == old(self).committed(),
            final(self).committed_entries() == old(self).committed_entries(),
            r is Ok ==> final(self).staged() == old(self).staged().insert(
                address(table, key@),
                match value {
                    Some(v) => Some(v@),
                    None => None,
                },
            ),
            r is Err ==> final(self).staged() == old(self).staged() && final(self).staged_entries()
                == old(self).staged_entries(),
            key@.len() > MAX_KEY_BYTES || (value matches Some(v) && v@.len() > MAX_BYTES_VALUE)
                ==> r == Err::<(), StorageError>(StorageError::Limit("transaction record")),
            key@.len() <= MAX_KEY_BYTES && !(value matches Some(v) && v@.len() > MAX_BYTES_VALUE) ==> {
                let a = address(table, key@);
                let fresh = !old(self).staged().dom().contains(a);
                let old_weight = if fresh {
                    0
                } else {
                    key@.len() + match old(self).staged()[a] {
                        Some(v) => v.len() as int,
                        None => 0,
                    }
                };
                let new_total = old(self).staged_bytes() - old_weight + key@.len() + match value {
                    Some(v) => v@.len() as int,
                    None => 0,
                };
                if fresh && old(self).staged().dom().len() >= MAX_TRANSACTION_KEYS - 2 {
                    r == Err::<(), StorageError>(StorageError::Limit("transaction key count"))
                } else if new_total > MAX_TRANSACTION_BYTES - MARKER_RESERVE {
                    r == Err::<(), StorageError>(StorageError::Limit("transaction bytes"))
                } else {
                    r is Ok && final(self).staged_bytes() == new_total
                }
            },
            key@.len() <= MAX_KEY_BYTES && !(value matches Some(v) && v@.len() > MAX_BYTES_VALUE)
                && old(self).staged().dom().len() < MAX_TRANSACTION_KEYS - 2 && old(self).staged_bytes()
                + key@.len() + match value {
                Some(v) => v@.len() as int,
                None => 0,
            } <= MAX_TRANSACTION_BYTES - MARKER_RESERVE ==> r is Ok,
            r is Ok ==> final(self).staged_bytes() <= old(self).staged_bytes() + key@.len() + match value {
                Some(v) => v@.len() as int,
                None => 0,
            },
            final(self).staged().dom().len() <= old(self).staged().dom().len() + 1,
            final(self).staged().dom().finite(),
    {
        assert(self.staged().dom() =~= self.changes@.dom());
        if key.len() > MAX_KEY_BYTES {
            return Err(StorageError::Limit("transaction record"));
        }
        match value {
            Some(v) => {
                if v.len() > MAX_BYTES_VALUE {
                    return Err(StorageError::Limit("transaction record"));
                }
            },
            None => {},
        }
        let a = make_address(table, key);
        let ghost e = self.changes.entries();
        proof {
            use_type_invariant(&*self);
            use_type_invariant(&self.changes);
            self.changes.lemma_wf();
            lemma_total_nonneg(e);
            crate::ordered::lemma_map_of_has_key(e, a@);
            crate::ordered::lemma_map_of_finite(e);
            crate::ordered::lemma_unique_len(e);
        }
        assert(self.staged().dom() =~= self.changes@.dom());
        let previous = self.changes.get(a.as_slice());
        let old_weight: usize = match previous {
            Some(p) => {
                proof {
                    let i = choose|i: int| 0 <= i < e.len() && #[trigger] e[i].0 == a@;
                    crate::ordered::lemma_map_of_index(e, i);
                    assert(change_weight(e[i]) <= changes_total(e));
                }
                key.len() + match p {
                    Some(v) => v.len(),
                    None => 0,
                }
            },
            None => {
                if self.changes.len() >= MAX_TRANSACTION_KEYS - 2 {
                    return Err(StorageError::Limit("transaction key count"));
                }
                0
            },
        };
        let added = key.len() + match value {
            Some(v) => v.len(),
            None => 0,
        };
        let bytes = self.bytes - old_weight + added;
        if bytes > MAX_TRANSACTION_BYTES - MARKER_RESERVE {
            return Err(StorageError::Limit("transaction bytes"));
        }
        let stored: Option<Vec<u8>> = match value {
            Some(v) => Some(copy_bytes(v)),
            None => None,
        };
        let ghost x = (a@, stored);
        let mut changes: Changes = OrderedMap::new();
        std::mem::swap(&mut changes, &mut self.changes);
        changes.set(a, stored);
        proof {
            let e2 = changes.entries();
            if has_key(e, x.0) {
                let i = choose|i: int|
                    0 <= i < e.len() && #[trigger] e[i].0 == x.0 && e2 == e.update(i, x);
                lemma_total_update(e, i, x);
                assert forall|j: int| 0 <= j < e2.len() implies #[trigger] e2[j].0.len() >= 1
                    && code_valid(e2[j].0[0]) by {
                    if j != i {
                        assert(e2[j] == e[j]);
                    }
                }
            } else {
                let p = choose|p: int| 0 <= p <= e.len() && e2 == #[trigger] e.insert(p, x);
                lemma_total_insert(e, p, x);
                lemma_table_code(table);
                assert forall|j: int| 0 <= j < e2.len() implies #[trigger] e2[j].0.len() >= 1
                    && code_valid(e2[j].0[0]) by {
                    if j < p {
                        assert(e2[j] == e[j]);
                    } else if j > p {
                        assert(e2[j] == e[j - 1]);
                    }
                }
            }
            crate::ordered::lemma_map_of_finite(changes.entries());
        }
        self.changes = changes;
        self.bytes = bytes;
        assert(self.staged() =~= old(self).staged().insert(
            address(table, key@),
            match value {
                Some(v) => Some(v@),
                None => None,
            },
        ));
        Ok(())
    }

    pub fn put(&mut self, table: Table, key: &[u8], value: &[u8]) -> (r: StorageResult<()>)
        requires
            old(self).wf(),
            table_valid(table),
        ensures
            final(self).wf(),
            final(self).committed() == old(self).committed(),
            final(self).committed_entries() == old(self).committed_entries(),
            r == stage_result(old(self).staged(), old(self).staged_bytes(), table, key@, Some(value@)),
            r is Ok ==> final(self).staged_bytes() == stage_bytes(old(self).staged(), old(self).staged_bytes(), table, key@, Some(value@)),
            r is Ok ==> final(self).staged() == old(self).staged().insert(address(table, key@), Some(value@)),
            r is Err ==> final(self).staged() == old(self).staged(),
            key@.len() > MAX_KEY_BYTES || value@.len() > MAX_BYTES_VALUE ==> r is Err,
            key@.len() <= MAX_KEY_BYTES && value@.len() <= MAX_BYTES_VALUE && old(self).staged().dom().len()
                < MAX_TRANSACTION_KEYS - 2 && old(self).staged_bytes() + key@.len() + value@.len()
                <= MAX_TRANSACTION_BYTES - MARKER_RESERVE ==> r is Ok,
            r is Ok ==> final(self).staged_bytes() <= old(self).staged_bytes() + key@.len() + value@.len(),
            final(self).staged().dom().len() <= old(self).staged().dom().len() + 1,
            final(self).staged().dom().finite(),
    {
        self.stage(table, key, Some(value))
    }

    pub fn remove(&mut self, table: Table, key: &[u8]) -> (r: StorageResult<()>)
        requires
            old(self).wf(),
            table_valid(table),
        ensures
            final(self).wf(),
            final(self).committed() == old(self).committed(),
            final(self).committed_entries() == old(self).committed_entries(),
            r == stage_result(old(self).staged(), old(self).staged_bytes(), table, key@, None),
            r is Ok ==> final(self).staged_bytes() == stage_bytes(old(self).staged(), old(self).staged_bytes(), table, key@, None),
            r is Ok ==> final(self).staged() == old(self).staged().insert(address(table, key@), None),
            r is Err ==> final(self).staged() == old(self).staged(),
            key@.len() > MAX_KEY_BYTES ==> r is Err,
            key@.len() <= MAX_KEY_BYTES && old(self).staged().dom().len() < MAX_TRANSACTION_KEYS - 2
                && old(self).staged_bytes() + key@.len() <= MAX_TRANSACTION_BYTES - MARKER_RESERVE ==> r is Ok,
            r is Ok ==> final(self).staged_bytes() <= old(self).staged_bytes() + key@.len(),
            final(self).staged().dom().len() <= old(self).staged().dom().len() + 1,
            final(self).staged().dom().finite(),
    {
        self.stage(table, key, None)
    }

    /// Scan committed rows of `table`; refused while this transaction has staged
    /// changes in that table.
    pub fn scan(&self, table: Table, after: Option<&[u8]>, prefix: &[u8], limits: ByteLimits) -> (r:
        StorageResult<Vec<RawEntry>>)
        requires
            self.wf(),
            table_valid(table),
        ensures
            !limits.valid() ==> r == Err::<Vec<RawEntry>, StorageError>(
                StorageError::Limit("byte scan budget"),
            ),
            limits.valid() && ((after matches Some(a) && a@.len() > MAX_KEY_BYTES) || prefix@.len()
                > MAX_KEY_BYTES) ==> r == Err::<Vec<RawEntry>, StorageError>(
                StorageError::Limit("scan key"),
            ),
            limits.valid() && !((after matches Some(a) && a@.len() > MAX_KEY_BYTES) || prefix@.len()
                > MAX_KEY_BYTES) ==> if exists|k: Seq<u8>| #[trigger]
                self.staged().dom().contains(k) && k.len() >= 1 && k[0] == table_code(table) {
                r == Err::<Vec<RawEntry>, StorageError>(StorageError::PendingWrites)
            } else {
                scan_view(r) == engine_scan(
                    self.committed_entries(),
                    table,
                    match after {
                        Some(a) => Some(a@),
                        None => None,
                    },
                    prefix@,
                    limits,
                )
            },
    {
        limits.validate()?;
        let long_after = match after {
            Some(a) => a.len() > MAX_KEY_BYTES,
            None => false,
        };
        if long_after || prefix.len() > MAX_KEY_BYTES {
            return Err(StorageError::Limit("scan key"));
        }
        let code = table.code();
        let n = self.changes.len();
        let mut i: usize = 0;
        proof {
            use_type_invariant(&self.changes);
            self.changes.lemma_wf();
        }
        while i < n
            invariant
                n == self.changes.entries().len(),
                i <= n,
                unique(self.changes.entries()),
                code == table_code(table),
                limits.valid(),
                !((after matches Some(a) && a@.len() > MAX_KEY_BYTES) || prefix@.len() > MAX_KEY_BYTES),
                forall|j: int| 0 <= j < i ==> !(#[trigger] self.changes.entries()[j].0.len() >= 1
                    && self.changes.entries()[j].0[0] == code),
            decreases n - i,
        {
            let (a, _) = self.changes.entry(i);
            if a.len() >= 1 && a[0] == code {
                proof {
                    crate::ordered::lemma_map_of_index(self.changes.entries(), i as int);
                    let k = a@;
                    assert(self.staged().dom().contains(k));
                }
                return Err(StorageError::PendingWrites);
            }
            i = i + 1;
        }
        proof {
            assert forall|k: Seq<u8>| #[trigger]
                self.staged().dom().contains(k) implies !(k.len() >= 1 && k[0] == table_code(table)) by {
                crate::ordered::lemma_map_of_has_key(self.changes.entries(), k);
            }
        }
        scan_engine(self.engine, table, after, prefix, limits)
    }
}

/// The rows after applying `changes` to `contents`.
pub open spec fn apply_changes(contents: Map<Seq<u8>, Seq<u8>>, changes: Map<Seq<u8>, Option<Seq<u8>>>) -> Map<
    Seq<u8>,
    Seq<u8>,
> {
    overlay(contents, changes)
}

/// The staged changes plus the automatic markers that a commit records.
pub open spec fn with_markers(changes: Map<Seq<u8>, Option<Seq<u8>>>, id: Seq<u8>) -> Map<
    Seq<u8>,
    Option<Seq<u8>>,
> {
    let touched = exists|k: Seq<u8>| #[trigger]
        changes.dom().contains(k) && k.len() >= 1 && is_shard_code(k[0]);
    let with_commit = if touched {
        changes.insert(address(Table::Metadata, "last_commit".spec_bytes()), Some(id))
    } else {
        changes
    };
    with_commit.insert(address(Table::Metadata, "last_transaction".spec_bytes()), Some(id))
}

/// The single owner of all durable views. Once a commit's outcome is unknown,
/// every operation returns that failure until the owner is reopened.
pub struct Database {
    engine: OrderedMap<Vec<u8>>,
    failure: Option<StorageError>,
}

/// Two errors are the same, with messages compared by their characters.
pub open spec fn same_error(a: StorageError, b: StorageError) -> bool {
    match (a, b) {
        (StorageError::Io(x), StorageError::Io(y)) => x@ == y@,
        (
            StorageError::CommitUnknown { change_id: i, message: x },
            StorageError::CommitUnknown { change_id: j, message: y },
        ) => i == j && x@ == y@,
        (StorageError::Io(_), _) => false,
        (StorageError::CommitUnknown { .. }, _) => false,
        _ => a == b,
    }
}

/// A copy of an error.
pub fn duplicate_error(e: &StorageError) -> (r: StorageError)
    ensures
        same_error(r, *e),
{
    match e {
        StorageError::InvalidDimension(d) => StorageError::InvalidDimension(*d),
        StorageError::Limit(s) => StorageError::Limit(s),
        StorageError::Corrupt(s) => StorageError::Corrupt(s),
        StorageError::Io(m) => StorageError::Io(m.clone()),
        StorageError::Busy => StorageError::Busy,
        StorageError::PendingWrites => StorageError::PendingWrites,
        StorageError::Unsupported(s) => StorageError::Unsupported(s),
        StorageError::CommitUnknown { change_id, message } => StorageError::CommitUnknown {
            change_id: *change_id,
            message: message.clone(),
        },
    }
}

impl Database {
    /// Committed rows by address.
    pub closed spec fn contents(&self) -> Map<Seq<u8>, Seq<u8>> {
        bytes_of(self.engine@)
    }

    /// Committed rows in address order.
    pub closed spec fn entries(&self) -> Seq<(Seq<u8>, Vec<u8>)> {
        self.engine.entries()
    }

    /// The recorded failure of a commit whose outcome is unknown.
    pub closed spec fn failure(&self) -> Option<StorageError> {
        self.failure
    }

    /// An empty owner.
    pub fn new() -> (db: Database)
        ensures
            db.contents() == Map::<Seq<u8>, Seq<u8>>::empty(),
            db.failure() is None,
    {
        let db = Database { engine: OrderedMap::new(), failure: None };
        assert(db.contents() =~= Map::<Seq<u8>, Seq<u8>>::empty());
        db
    }

    /// Restore one committed row, as read back from durable storage.
    pub fn restore(&mut self, table: Table, key: &[u8], value: &[u8])
        requires
            table_valid(table),
        ensures
            final(self).contents() == old(self).contents().insert(address(table, key@), value@),
            final(self).failure() == old(self).failure(),
    {
        let a = make_address(table, key);
        self.engine.set(a, copy_bytes(value));
        assert(final(self).contents() =~= old(self).contents().insert(address(table, key@), value@));
    }

    /// Begin a transaction over the committed rows.
    pub fn begin(&self) -> (r: StorageResult<Transaction<'_>>)
        ensures
            self.failure() matches Some(f) ==> (r matches Err(e) && same_error(e, f)),
            self.failure() is None ==> (r matches Ok(tx) && tx.wf() && tx.committed() == self.contents()
                && tx.committed_entries() == self.entries() && tx.staged_bytes() == 0 && tx.staged()
                == Map::<Seq<u8>, Option<Seq<u8>>>::empty()),
    {
        match &self.failure {
            Some(f) => Err(duplicate_error(f)),
            None => Ok(Transaction::new(&self.engine)),
        }
    }

    /// Reopen the owner over its committed rows: a failure recorded by a
    /// commit whose outcome was unknown is resolved by the rows themselves.
    pub fn reopen(self) -> (db: Database)
        ensures
            db.contents() == self.contents(),
            db.entries() == self.entries(),
            db.failure() is None,
    {
        Database { engine: self.engine, failure: None }
    }

    /// Freeze every view of this owner after a commit whose outcome is unknown.
    pub fn poison(&mut self, error: StorageError)
        ensures
            final(self).failure() == Some(error),
            final(self).contents() == old(self).contents(),
    {
        self.failure = Some(error);
    }

    /// Settle a commit by what the durable engine reported for it. An
    /// acknowledgement hands back the commit's identity. A lost one (an unknown
    /// outcome) freezes every view of the owner until it is reopened, since the
    /// rows may or may not hold the commit; any other error leaves the owner as
    /// it was. The error is handed back either way.
    pub fn settle(&mut self, change_id: Option<[u8; 32]>, reported: StorageResult<()>) -> (r: StorageResult<
        Option<[u8; 32]>,
    >)
        ensures
            final(self).contents() == old(self).contents(),
            final(self).entries() == old(self).entries(),
            reported is Ok ==> r == Ok::<Option<[u8; 32]>, StorageError>(change_id) && final(self).failure()
                == old(self).failure(),
            reported matches Err(e) ==> r == Err::<Option<[u8; 32]>, StorageError>(e),
            match reported {
                Ok(_) => true,
                Err(e) => if e is CommitUnknown {
                    final(self).failure() matches Some(f) && same_error(f, e)
                } else {
                    final(self).failure() == old(self).failure()
                },
            },
    {
        match reported {
            Ok(()) => Ok(change_id),
            Err(e) => {
                if let StorageError::CommitUnknown { .. } = &e {
                    self.failure = Some(duplicate_error(&e));
                }
                Err(e)
            },
        }
    }

    /// Publish staged changes with their markers; an empty batch changes nothing.
    pub fn commit(&mut self, changes: Changes) -> (id: Option<[u8; 32]>)
        requires
            addresses_valid(changes.entries()),
        ensures
            final(self).failure() == old(self).failure(),
            changes.entries().len() == 0 ==> id is None && final(self).contents() == old(self).contents(),
            changes.entries().len() > 0 ==> (id matches Some(i) && i@ == change_id_spec(
                changes_view(changes.entries()),
            ) && final(self).contents() == apply_changes(
                old(self).contents(),
                with_markers(staged_of(changes@), i@),
            )),
    {
        if changes.len() == 0 {
            return None;
        }
        let id = change_id(&changes);
        let ghost staged = staged_of(changes@);
        let mut changes = changes;
        proof {
            use_type_invariant(&changes);
            changes.lemma_wf();
        }
        let mut touched = false;
        let mut i: usize = 0;
        while i < changes.len()
            invariant
                i <= changes.entries().len(),
                addresses_valid(changes.entries()),
                unique(changes.entries()),
                staged == staged_of(changes@),
                touched == exists|j: int| 0 <= j < i && is_shard_code(#[trigger] changes.entries()[j].0[0]),
            decreases changes.entries().len() - i,
        {
            let (a, _) = changes.entry(i);
            let shard = match Table::from_code(a[0]) {
                Table::Shard(_) => true,
                _ => false,
            };
            if shard {
                touched = true;
            }
            i = i + 1;
        }
        proof {
            let e = changes.entries();
            if touched {
                let j = choose|j: int| 0 <= j < e.len() && is_shard_code(#[trigger] e[j].0[0]);
                crate::ordered::lemma_map_of_index(e, j);
                assert(staged.dom().contains(e[j].0));
            } else {
                assert forall|k: Seq<u8>| #[trigger]
                    staged.dom().contains(k) implies !(k.len() >= 1 && is_shard_code(k[0])) by {
                    crate::ordered::lemma_map_of_has_key(e, k);
                }
            }
        }
        if touched {
            let key = make_address(Table::Metadata, "last_commit".as_bytes());
            changes.set(key, Some(copy_bytes(&id)));
        }
        let key = make_address(Table::Metadata, "last_transaction".as_bytes());
        changes.set(key, Some(copy_bytes(&id)));
        proof {
            assert(staged_of(changes@) =~= with_markers(staged, id@));
            use_type_invariant(&changes);
            changes.lemma_wf();
        }
        let ghost target = apply_changes(self.contents(), staged_of(changes@));
        let ghost base = self.contents();
        let n = changes.len();
        let mut k: usize = 0;
        while k < n
            invariant
                n == changes.entries().len(),
                k <= n,
                unique(changes.entries()),
                target == apply_changes(base, staged_of(changes@)),
                self.contents() == apply_changes(base, staged_of(map_of(changes.entries().take(k as int)))),
                self.failure() == old(self).failure(),
            decreases n - k,
        {
            let (a, v) = changes.entry(k);
            let ghost before = self.contents();
            let ghost e = changes.entries();
            match v {
                Some(bytes) => {
                    self.engine.set(copy_bytes(a.as_slice()), copy_bytes(bytes.as_slice()));
                },
                None => {
                    self.engine.remove(a.as_slice());
                },
            }
            proof {
                assert(e.take(k + 1).drop_last() =~= e.take(k as int));
                assert(e.take(k + 1).last() == e[k as int]);
                let s0 = staged_of(map_of(e.take(k as int)));
                let s1 = staged_of(map_of(e.take(k + 1)));
                assert(s1 =~= s0.insert(e[k as int].0, opt_view(e[k as int].1)));
                match e[k as int].1 {
                    Some(b) => {
                        assert(self.contents() =~= before.insert(e[k as int].0, b@));
                        assert(apply_changes(base, s1) =~= apply_changes(base, s0).insert(e[k as int].0, b@));
                    },
                    None => {
                        assert(self.contents() =~= before.remove(e[k as int].0));
                        assert(apply_changes(base, s1) =~= apply_changes(base, s0).remove(e[k as int].0));
                    },
                }
            }
            k = k + 1;
        }
        proof {
            assert(changes.entries().take(n as int) =~= changes.entries());
        }
        Some(id)
    }

    /// Run `execute` in a transaction and commit what it staged. A failure of
    /// the closure discards its staged changes; a frozen owner runs nothing.
    pub fn transaction<T, F: FnOnce(&mut Transaction<'_>) -> StorageResult<T>>(&mut self, execute: F) -> (r:
        StorageResult<Commit<T>>)
        requires
            forall|tx: &mut Transaction<'_>| tx.wf() ==> #[trigger] call_requires(execute, (tx,)),
        ensures
            old(self).failure() matches Some(f) ==> (r matches Err(e) && same_error(e, f)
                && final(self).contents() == old(self).contents()),
            final(self).failure() == old(self).failure(),
            r is Err ==> final(self).contents() == old(self).contents(),
            r matches Ok(c) && c.change_id is None ==> final(self).contents() == old(self).contents(),
            old(self).failure() is None ==> exists|tx: &mut Transaction<'_>, x: StorageResult<T>|
                #[trigger] call_ensures(execute, (tx,), x) && tx.wf() && tx.committed() == old(self).contents()
                    && tx.staged() == Map::<Seq<u8>, Option<Seq<u8>>>::empty() && tx.staged_bytes() == 0
                    && committed_outcome(old(self).contents(), final(tx).staged(), x, r, final(self).contents()),
    {
        let changes = {
            let mut tx = self.begin()?;
            let result = execute(&mut tx);
            let value = match result {
                Ok(v) => v,
                Err(e) => {
                    return Err(e);
                },
            };
            (value, tx.into_changes())
        };
        let (value, changes) = changes;
        let change_id = self.commit(changes);
        Ok(Commit { value, change_id })
    }

    /// Read `key` in `table` from the committed rows.
    pub fn read(&self, table: Table, key: &[u8], max: usize) -> (r: StorageResult<Option<Vec<u8>>>)
        requires
            table_valid(table),
        ensures
            self.failure() matches Some(f) ==> (r matches Err(e) && same_error(e, f)),
            self.failure() is None ==> read_view(r) == lookup(
                self.contents(),
                Map::empty(),
                table,
                key@,
                max as nat,
            ),
    {
        let tx = self.begin()?;
        tx.get(table, key, max)
    }

    /// Scan committed rows of `table`.
    pub fn scan(&self, table: Table, after: Option<&[u8]>, prefix: &[u8], limits: ByteLimits) -> (r:
        StorageResult<Vec<RawEntry>>)
        requires
            table_valid(table),
        ensures
            self.failure() matches Some(f) ==> (r matches Err(e) && same_error(e, f)),
            self.failure() is None && !limits.valid() ==> r is Err,
            self.failure() is None && limits.valid() && ((after matches Some(a) && a@.len()
                > MAX_KEY_BYTES) || prefix@.len() > MAX_KEY_BYTES) ==> r is Err,
            self.failure() is None && limits.valid() && !((after matches Some(a) && a@.len()
                > MAX_KEY_BYTES) || prefix@.len() > MAX_KEY_BYTES) ==> scan_view(r) == engine_scan(
                self.entries(),
                table,
                match after {
                    Some(a) => Some(a@),
                    None => None,
                },
                prefix@,
                limits,
            ),
            crate::ordered::sorted(self.entries()),
            self.contents() == bytes_of(crate::ordered::map_of(self.entries())),
            self.contents().dom().finite(),
    {
        proof {
            use_type_invariant(&self.engine);
            self.engine.lemma_wf();
            assert(self.contents().dom() =~= self.engine@.dom());
        }
        let tx = self.begin()?;
        proof {
            assert(tx.staged().dom() =~= Set::<Seq<u8>>::empty());
        }
        tx.scan(table, after, prefix, limits)
    }

    /// The identity of the last committed transaction, if any.
    pub fn last_transaction(&self) -> (r: StorageResult<Option<[u8; 32]>>)
        ensures
            self.failure() matches Some(f) ==> (r matches Err(e) && same_error(e, f)),
            self.failure() is None ==> {
                let a = address(Table::Metadata, "last_transaction".spec_bytes());
                if !self.contents().dom().contains(a) {
                    r == Ok::<Option<[u8; 32]>, StorageError>(None)
                } else if self.contents()[a].len() > 32 {
                    r == Err::<Option<[u8; 32]>, StorageError>(
                        StorageError::Limit("database value exceeds read budget"),
                    )
                } else if self.contents()[a].len() != 32 {
                    r == Err::<Option<[u8; 32]>, StorageError>(
                        StorageError::Corrupt("commit marker length"),
                    )
                } else {
                    r matches Ok(Some(m)) && m@ == self.contents()[a]
                }
            },
    {
        proof {
            reveal_strlit("last_transaction");
            vstd::string::is_ascii_spec_bytes("last_transaction");
        }
        let bytes = self.read(Table::Metadata, "last_transaction".as_bytes(), 32)?;
        match bytes {
            Some(b) => Ok(Some(decode_marker(b.as_slice())?)),
            None => Ok(None),
        }
    }

    /// Whether a commit's outcome is unknown.
    pub fn is_poisoned(&self) -> (r: bool)
        ensures
            r == self.failure() is Some,
    {
        self.failure.is_some()
    }

    /// Ok unless a commit's outcome is unknown.
    pub fn ready(&self) -> (r: StorageResult<()>)
        ensures
            self.failure() matches Some(f) ==> (r matches Err(e) && same_error(e, f)),
            self.failure() is None ==> r is Ok,
            crate::ordered::sorted(self.entries()),
            self.contents() == bytes_of(crate::ordered::map_of(self.entries())),
            self.contents().dom().finite(),
    {
        proof {
            use_type_invariant(&self.engine);
            self.engine.lemma_wf();
            assert(self.contents().dom() =~= self.engine@.dom());
        }
        match &self.failure {
            Some(f) => Err(duplicate_error(f)),
            None => Ok(()),
        }
    }
}

/// A 32-byte commit marker.
pub fn decode_marker(bytes: &[u8]) -> (r: StorageResult<[u8; 32]>)
    ensures
        bytes@.len() == 32 ==> (r matches Ok(m) && m@ == bytes@),
        bytes@.len() != 32 ==> r == Err::<[u8; 32], StorageError>(
            StorageError::Corrupt("commit marker length"),
        ),
{
    if bytes.len() != 32 {
        return Err(StorageError::Corrupt("commit marker length"));
    }
    Ok(crate::bytes::read_array32(bytes, 0))
}


/// A write staged in a transaction reads back through it.
pub proof fn law_staged_write_reads_back(
    c: Map<Seq<u8>, Seq<u8>>,
    s: Map<Seq<u8>, Option<Seq<u8>>>,
    table: Table,
    key: Seq<u8>,
    value: Seq<u8>,
    max: nat,
)
    requires
        key.len() <= MAX_KEY_BYTES,
        max <= MAX_BYTES_VALUE,
        value.len() <= max,
    ensures
        lookup(c, s.insert(address(table, key), Some(value)), table, key, max) == Ok::<
            Option<Seq<u8>>,
            StorageError,
        >(Some(value)),
{
}

/// A committed write reads back from the owner, outside the metadata table
/// where a commit records its markers.
pub proof fn law_committed_write_reads_back(
    c: Map<Seq<u8>, Seq<u8>>,
    s: Map<Seq<u8>, Option<Seq<u8>>>,
    id: Seq<u8>,
    table: Table,
    key: Seq<u8>,
    value: Seq<u8>,
    max: nat,
)
    requires
        table_valid(table),
        table != Table::Metadata,
        s.dom().contains(address(table, key)),
        s[address(table, key)] == Some(value),
        key.len() <= MAX_KEY_BYTES,
        max <= MAX_BYTES_VALUE,
        value.len() <= max,
    ensures
        lookup(apply_changes(c, with_markers(s, id)), Map::empty(), table, key, max) == Ok::<
            Option<Seq<u8>>,
            StorageError,
        >(Some(value)),
{
    let a = address(table, key);
    reveal_strlit("last_commit");
    reveal_strlit("last_transaction");
    lemma_table_code(table);
    lemma_table_code(Table::Metadata);
    if table_code(table) == table_code(Table::Metadata) {
        lemma_code_table(table_code(table));
    }
    assert(a[0] != address(Table::Metadata, "last_commit".spec_bytes())[0]);
    assert(a[0] != address(Table::Metadata, "last_transaction".spec_bytes())[0]);
}

/// After a commit the owner names it as its last transaction: the marker holds
/// the commit's identity, and the last shard commit is it too where the commit
/// touched a shard.
pub proof fn law_commit_is_the_last_transaction(c: Map<Seq<u8>, Seq<u8>>, s: Map<Seq<u8>, Option<Seq<u8>>>, id: Seq<u8>)
    ensures
        ({
            let after = apply_changes(c, with_markers(s, id));
            let lt = address(Table::Metadata, "last_transaction".spec_bytes());
            let lc = address(Table::Metadata, "last_commit".spec_bytes());
            &&& after.dom().contains(lt) && after[lt] == id
            &&& (exists|k: Seq<u8>| #[trigger] s.dom().contains(k) && k.len() >= 1 && is_shard_code(k[0]))
                ==> after.dom().contains(lc) && after[lc] == id
        }),
{
    reveal_strlit("last_commit");
    reveal_strlit("last_transaction");
    vstd::string::is_ascii_spec_bytes("last_commit");
    vstd::string::is_ascii_spec_bytes("last_transaction");
    let lt = address(Table::Metadata, "last_transaction".spec_bytes());
    let lc = address(Table::Metadata, "last_commit".spec_bytes());
    assert(lt != lc) by {
        assert(lt.len() != lc.len());
    }
}

/// A committed removal reads as absent from the owner, outside the metadata
/// table where a commit records its markers.
pub proof fn law_committed_removal(
    c: Map<Seq<u8>, Seq<u8>>,
    s: Map<Seq<u8>, Option<Seq<u8>>>,
    id: Seq<u8>,
    table: Table,
    key: Seq<u8>,
    max: nat,
)
    requires
        table_valid(table),
        table != Table::Metadata,
        s.dom().contains(address(table, key)),
        s[address(table, key)] is None,
        key.len() <= MAX_KEY_BYTES,
        max <= MAX_BYTES_VALUE,
    ensures
        lookup(apply_changes(c, with_markers(s, id)), Map::empty(), table, key, max) == Ok::<
            Option<Seq<u8>>,
            StorageError,
        >(None),
{
    let a = address(table, key);
    reveal_strlit("last_commit");
    reveal_strlit("last_transaction");
    lemma_table_code(table);
    lemma_table_code(Table::Metadata);
    if table_code(table) == table_code(Table::Metadata) {
        lemma_code_table(table_code(table));
    }
    assert(a[0] != address(Table::Metadata, "last_commit".spec_bytes())[0]);
    assert(a[0] != address(Table::Metadata, "last_transaction".spec_bytes())[0]);
}

/// A row that a commit does not touch reads as it did before.
pub proof fn lemma_untouched_lookup(
    c: Map<Seq<u8>, Seq<u8>>,
    s: Map<Seq<u8>, Option<Seq<u8>>>,
    id: Seq<u8>,
    table: Table,
    key: Seq<u8>,
    max: nat,
)
    requires
        table_valid(table),
        table != Table::Metadata,
        !s.dom().contains(address(table, key)),
    ensures
        lookup(apply_changes(c, with_markers(s, id)), Map::empty(), table, key, max) == lookup(
            c,
            Map::empty(),
            table,
            key,
            max,
        ),
{
    let a = address(table, key);
    reveal_strlit("last_commit");
    reveal_strlit("last_transaction");
    lemma_table_code(table);
    lemma_table_code(Table::Metadata);
    if table_code(table) == table_code(Table::Metadata) {
        lemma_code_table(table_code(table));
    }
    assert(a[0] != address(Table::Metadata, "last_commit".spec_bytes())[0]);
    assert(a[0] != address(Table::Metadata, "last_transaction".spec_bytes())[0]);
}

} // verus!
