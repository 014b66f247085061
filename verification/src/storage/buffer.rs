//! Pending shard mutations in front of the shared owner: the newest value of
//! every written entry in write order, the deleted entries, a read cache, and
//! the failure of a commit whose outcome is unknown.
use crate::bytes::{lex_lt, compare_bytes, ByteOrder, append_bytes, copy_bytes, le64, push_le64, read_array32};
use crate::hash::{hemera_digest, hemera_hash};
use crate::ordered::{OrderedMap, has_key, lemma_map_of_has_key, lemma_map_of_index, map_of, sorted, unique};
use crate::storage::access::{
    ScanItem, ScanLimits, ShardEntry, copy_value, item_view, items_view, page_of, page_view, collect_page,
    FIELD_MODULUS, MAX_PENDING_ELEMENTS, MAX_PENDING_KEYS, MAX_VALUE_ELEMENTS, StorageError, StorageResult,
    check_dimension, field_bytes, serialize_field,
};
use crate::storage::database::{
    MARKER_RESERVE, MAX_TRANSACTION_BYTES, MAX_TRANSACTION_KEYS, Transaction, duplicate_error, same_error,
};
use crate::storage::table::{Table, address, code_valid, is_shard_code, lemma_code_table, lemma_table_code, table_of_code};
use crate::storage::dim;
use vstd::prelude::*;
use vstd::string::StringSliceAdditionalSpecFns;

verus! {

/// A pending entry: dimension, key, value.
pub type DirtyEntry = (u8, [u8; 32], Vec<u64>);

/// The address of an entry among pending changes: its dimension, then its key.
pub open spec fn entry_key(dimension: u8, key: Seq<u8>) -> Seq<u8> {
    seq![dimension] + key
}

pub open spec fn dirty_key(e: DirtyEntry) -> Seq<u8> {
    entry_key(e.0, e.1@)
}

/// Elements held by pending entries.
pub open spec fn values_total(s: Seq<DirtyEntry>) -> int
    decreases s.len(),
{
    if s.len() == 0 {
        0
    } else {
        values_total(s.drop_last()) + s.last().2@.len()
    }
}

/// A value that a durable shard table can hold.
pub open spec fn storable(v: Seq<u64>) -> bool {
    v.len() <= MAX_VALUE_ELEMENTS && forall|i: int| 0 <= i < v.len() ==> v[i] < FIELD_MODULUS
}

pub struct WriteBuffer {
    cache: OrderedMap<Vec<u64>>,
    dirty: Vec<DirtyEntry>,
    deleted: OrderedMap<bool>,
    unknown: Option<StorageError>,
    positions: OrderedMap<usize>,
    elements: usize,
}

proof fn lemma_total_push(s: Seq<DirtyEntry>, e: DirtyEntry)
    ensures
        values_total(s.push(e)) == values_total(s) + e.2@.len(),
{
    assert(s.push(e).drop_last() =~= s);
}

proof fn lemma_total_nonneg(s: Seq<DirtyEntry>)
    ensures
        values_total(s) >= 0,
    decreases s.len(),
{
    if s.len() > 0 {
        lemma_total_nonneg(s.drop_last());
    }
}

proof fn lemma_total_update(s: Seq<DirtyEntry>, i: int, e: DirtyEntry)
    requires
        0 <= i < s.len(),
    ensures
        values_total(s.update(i, e)) == values_total(s) - s[i].2@.len() + e.2@.len(),
    decreases s.len(),
{
    if i < s.len() - 1 {
        assert(s.update(i, e).drop_last() =~= s.drop_last().update(i, e));
        lemma_total_update(s.drop_last(), i, e);
    } else {
        assert(s.update(i, e).drop_last() =~= s.drop_last());
    }
}

proof fn lemma_total_drop_last(s: Seq<DirtyEntry>)
    requires
        s.len() > 0,
    ensures
        values_total(s.drop_last()) == values_total(s) - s.last().2@.len(),
{
}

proof fn lemma_total_swap_remove(s: Seq<DirtyEntry>, i: int)
    requires
        0 <= i < s.len(),
    ensures
        values_total(s.update(i, s.last()).drop_last()) == values_total(s) - s[i].2@.len(),
{
    lemma_total_update(s, i, s.last());
    let t = s.update(i, s.last());
    assert(t.last() == s.last());
    lemma_total_drop_last(t);
}

impl WriteBuffer {
    /// The written entries in write order, by value.
    pub closed spec fn dirty_view(&self) -> Seq<(u8, [u8; 32], Seq<u64>)> {
        self.dirty@.map_values(|e: DirtyEntry| (e.0, e.1, e.2@))
    }

    pub closed spec fn deleted_view(&self) -> Set<Seq<u8>> {
        self.deleted@.dom()
    }

    pub closed spec fn cache_view(&self) -> Map<Seq<u8>, Seq<u64>> {
        values_of(self.cache@)
    }

    pub closed spec fn unknown_view(&self) -> Option<StorageError> {
        self.unknown
    }

    /// Elements held by the pending entries.
    pub closed spec fn elements(&self) -> int {
        self.elements as int
    }

    /// Pending entries counted against the key limit: written and deleted.
    pub closed spec fn pending_keys(&self) -> nat {
        self.dirty@.len() + self.deleted@.dom().len()
    }

    /// Where the pending value of entry `a` stands in write order.
    pub closed spec fn position(&self, a: Seq<u8>) -> int {
        self.positions@[a] as int
    }

    /// The pending changes: the newest value of every written entry, and
    /// `None` for every deleted one.
    pub closed spec fn pending(&self) -> Map<Seq<u8>, Option<Seq<u64>>> {
        Map::new(
            |a: Seq<u8>| self.positions@.dom().contains(a) || self.deleted@.dom().contains(a),
            |a: Seq<u8>|
                if self.positions@.dom().contains(a) {
                    Some(self.dirty@[self.positions@[a] as int].2@)
                } else {
                    None
                },
        )
    }

    /// Positions index the written entries one to one; written and deleted
    /// entries are disjoint; counts and sizes stay within the pending limits;
    /// only durable dimensions are pending, with storable values.
    pub closed spec fn wf(&self) -> bool {
        &&& forall|i: int|
            0 <= i < self.dirty@.len() ==> self.positions@.dom().contains(dirty_key(#[trigger] self.dirty@[i]))
                && self.positions@[dirty_key(self.dirty@[i])] == i
        &&& forall|a: Seq<u8>|
            #[trigger] self.positions@.dom().contains(a) ==> self.positions@[a] < self.dirty@.len() && dirty_key(
                self.dirty@[self.positions@[a] as int],
            ) == a
        &&& forall|a: Seq<u8>| #[trigger] self.positions@.dom().contains(a) ==> !self.deleted@.dom().contains(a)
        &&& forall|i: int|
            0 <= i < self.dirty@.len() ==> (#[trigger] self.dirty@[i]).0 < dim::EPHEMERAL && storable(
                self.dirty@[i].2@,
            )
        &&& forall|a: Seq<u8>| #[trigger] self.deleted@.dom().contains(a) ==> a.len() == 33 && a[0] < dim::EPHEMERAL
        &&& forall|a: Seq<u8>| #[trigger] self.cache@.dom().contains(a) ==> a.len() == 33 && storable(self.cache@[a]@)
        &&& self.deleted@.dom().finite()
        &&& self.elements as int == values_total(self.dirty@)
        &&& self.elements <= MAX_PENDING_ELEMENTS
        &&& self.dirty@.len() + self.deleted@.dom().len() <= MAX_PENDING_KEYS
    }

    pub fn new() -> (b: Self)
        ensures
            b.wf(),
            b.pending() == Map::<Seq<u8>, Option<Seq<u64>>>::empty(),
            b.dirty_view() == Seq::<(u8, [u8; 32], Seq<u64>)>::empty(),
            b.cache_view() == Map::<Seq<u8>, Seq<u64>>::empty(),
            b.unknown_view() is None,
    {
        let b = WriteBuffer {
            cache: OrderedMap::new(),
            dirty: Vec::new(),
            deleted: OrderedMap::new(),
            unknown: None,
            positions: OrderedMap::new(),
            elements: 0,
        };
        assert(b.pending() =~= Map::<Seq<u8>, Option<Seq<u64>>>::empty());
        assert(b.cache_view() =~= Map::<Seq<u8>, Seq<u64>>::empty());
        assert(b.deleted@.dom() =~= Set::<Seq<u8>>::empty());
        b
    }

    /// Ok unless a commit's outcome is unknown.
    pub fn ready(&self) -> (r: StorageResult<()>)
        ensures
            match self.unknown_view() {
                Some(e) => r matches Err(x) && same_error(x, e),
                None => r is Ok,
            },
    {
        match &self.unknown {
            Some(error) => Err(duplicate_error(error)),
            None => Ok(()),
        }
    }
}


/// What a write does to pending changes and the cache while no commit's
/// outcome is unknown.
pub open spec fn put_outcome(b0: WriteBuffer, b1: WriteBuffer, dimension: u8, key: [u8; 32], value: Seq<u64>, r: StorageResult<()>) -> bool {
    let a = entry_key(dimension, key@);
    let p = b0.pending();
    let previous = if p.dom().contains(a) && p[a] is Some {
        p[a]->Some_0.len() as int
    } else {
        0
    };
    if dimension > dim::EPHEMERAL {
        r == Err::<(), StorageError>(StorageError::InvalidDimension(dimension))
    } else if value.len() > MAX_VALUE_ELEMENTS {
        r == Err::<(), StorageError>(StorageError::Limit("value element count"))
    } else if dimension == dim::EPHEMERAL {
        &&& r is Ok
        &&& b1.pending() == p
        &&& b1.dirty_view() == b0.dirty_view()
        &&& b1.cache_view() == b0.cache_view().insert(a, value)
    } else if b0.elements() - previous + value.len() > MAX_PENDING_ELEMENTS {
        r == Err::<(), StorageError>(StorageError::Limit("pending element count"))
    } else if !p.dom().contains(a) && b0.pending_keys() >= MAX_PENDING_KEYS {
        r == Err::<(), StorageError>(StorageError::Limit("pending key count"))
    } else {
        &&& r is Ok
        &&& b1.pending() == p.insert(a, Some(value))
        &&& b1.cache_view() == b0.cache_view().insert(a, value)
        &&& b1.elements() == b0.elements() - previous + value.len()
        &&& if p.dom().contains(a) && p[a] is Some {
            b1.dirty_view() == b0.dirty_view().update(
                b0.position(a),
                (dimension, key, value),
            )
        } else {
            b1.dirty_view() == b0.dirty_view().push((dimension, key, value))
        }
    }
}

/// What a deletion does to pending changes and the cache while no commit's
/// outcome is unknown.
pub open spec fn delete_outcome(b0: WriteBuffer, b1: WriteBuffer, dimension: u8, key: [u8; 32], r: StorageResult<()>) -> bool {
    let a = entry_key(dimension, key@);
    let p = b0.pending();
    let previous = if p.dom().contains(a) && p[a] is Some {
        p[a]->Some_0.len() as int
    } else {
        0
    };
    if dimension > dim::EPHEMERAL {
        r == Err::<(), StorageError>(StorageError::InvalidDimension(dimension))
    } else if dimension == dim::EPHEMERAL {
        &&& r is Ok
        &&& b1.pending() == p
        &&& b1.dirty_view() == b0.dirty_view()
        &&& b1.cache_view() == b0.cache_view().remove(a)
    } else if !p.dom().contains(a) && b0.pending_keys() >= MAX_PENDING_KEYS {
        r == Err::<(), StorageError>(StorageError::Limit("pending key count"))
    } else {
        &&& r is Ok
        &&& b1.pending() == p.insert(a, None)
        &&& b1.cache_view() == b0.cache_view().remove(a)
        &&& b1.elements() == b0.elements() - previous
        &&& if p.dom().contains(a) && p[a] is Some {
            b1.dirty_view() == b0.dirty_view().update(
                b0.position(a),
                b0.dirty_view().last(),
            ).drop_last()
        } else {
            b1.dirty_view() == b0.dirty_view()
        }
    }
}

/// The pending address of an entry.
pub fn make_entry_key(dimension: u8, key: &[u8; 32]) -> (a: Vec<u8>)
    ensures
        a@ == entry_key(dimension, key@),
        a@.len() == 33,
{
    let mut a: Vec<u8> = Vec::new();
    a.push(dimension);
    append_bytes(&mut a, key);
    assert(a@ =~= entry_key(dimension, key@));
    a
}

/// A copy of field elements.
pub fn copy_values(v: &[u64]) -> (out: Vec<u64>)
    ensures
        out@ == v@,
{
    let mut out: Vec<u64> = Vec::new();
    let mut i: usize = 0;
    while i < v.len()
        invariant
            i <= v.len(),
            out@ =~= v@.take(i as int),
        decreases v.len() - i,
    {
        out.push(v[i]);
        assert(v@.take(i + 1) =~= v@.take(i as int).push(v[i as int]));
        i = i + 1;
    }
    assert(v@.take(i as int) =~= v@);
    out
}

proof fn lemma_total_member(s: Seq<DirtyEntry>, i: int)
    requires
        0 <= i < s.len(),
    ensures
        s[i].2@.len() <= values_total(s),
    decreases s.len(),
{
    lemma_total_nonneg(s.drop_last());
    if i < s.len() - 1 {
        assert(s.drop_last()[i] == s[i]);
        lemma_total_member(s.drop_last(), i);
    }
}

impl WriteBuffer {
    /// A new pending entry must fit the pending key limit.
    fn check_key_capacity(&self, dimension: u8, key: &[u8; 32]) -> (r: StorageResult<()>)
        requires
            self.wf(),
        ensures
            !self.pending().dom().contains(entry_key(dimension, key@)) && self.pending_keys() >= MAX_PENDING_KEYS
                ==> r == Err::<(), StorageError>(StorageError::Limit("pending key count")),
            !(!self.pending().dom().contains(entry_key(dimension, key@)) && self.pending_keys()
                >= MAX_PENDING_KEYS) ==> r is Ok,
    {
        proof {
            use_type_invariant(&self.deleted);
            self.deleted.lemma_wf();
            crate::ordered::lemma_unique_len(self.deleted.entries());
        }
        let a = make_entry_key(dimension, key);
        let exists = self.deleted.get(a.as_slice()).is_some() || self.positions.get(a.as_slice()).is_some();
        if !exists && self.dirty.len() + self.deleted.len() >= MAX_PENDING_KEYS {
            return Err(StorageError::Limit("pending key count"));
        }
        Ok(())
    }

    /// Write `value` at (`dimension`, `key`): pending for the next commit
    /// unless the dimension is local-only, and cached either way.
    pub fn put(&mut self, dimension: u8, key: [u8; 32], value: Vec<u64>) -> (r: StorageResult<()>)
        requires
            old(self).wf(),
            forall|i: int| 0 <= i < value@.len() ==> value@[i] < FIELD_MODULUS,
        ensures
            final(self).wf(),
            final(self).unknown_view() == old(self).unknown_view(),
            r is Err ==> *final(self) == *old(self),
            old(self).unknown_view() matches Some(e) ==> r matches Err(x) && same_error(x, e),
            old(self).unknown_view() is None ==> put_outcome(*old(self), *final(self), dimension, key, value@, r),
    {
        self.ready()?;
        check_dimension(dimension)?;
        if value.len() > MAX_VALUE_ELEMENTS {
            return Err(StorageError::Limit("value element count"));
        }
        let a = make_entry_key(dimension, &key);
        let ghost p = self.pending();
        proof {
            use_type_invariant(&self.positions);
            use_type_invariant(&self.deleted);
            self.deleted.lemma_wf();
            self.positions.lemma_wf();
        }
        if dimension != dim::EPHEMERAL {
            let position: Option<usize> = match self.positions.get(a.as_slice()) {
                Some(i) => Some(*i),
                None => None,
            };
            let previous: usize = match position {
                Some(i) => {
                    proof {
                        lemma_total_member(self.dirty@, i as int);
                    }
                    self.dirty[i].2.len()
                },
                None => 0,
            };
            if self.elements - previous + value.len() > MAX_PENDING_ELEMENTS {
                return Err(StorageError::Limit("pending element count"));
            }
            let elements = self.elements - previous + value.len();
            self.check_key_capacity(dimension, &key)?;
            let ghost before = *self;
            self.deleted.remove(a.as_slice());
            let stored = copy_values(value.as_slice());
            match position {
                Some(i) => {
                    proof {
                        lemma_total_update(self.dirty@, i as int, (dimension, key, stored));
                    }
                    self.dirty.set(i, (dimension, key, stored));
                },
                None => {
                    proof {
                        lemma_total_push(self.dirty@, (dimension, key, stored));
                    }
                    self.positions.set(copy_bytes(a.as_slice()), self.dirty.len());
                    self.dirty.push((dimension, key, stored));
                },
            }
            self.elements = elements;
            proof {
                assert(self.pending() =~= p.insert(a@, Some(value@)));
                match position {
                    Some(i) => {
                        assert(self.dirty_view() =~= before.dirty_view().update(i as int, (dimension, key, value@)));
                    },
                    None => {
                        assert(self.dirty_view() =~= before.dirty_view().push((dimension, key, value@)));
                    },
                }
            }
        }
        self.cache.set(a, value);
        proof {
            assert(self.cache_view() =~= old(self).cache_view().insert(a@, value@));
        }
        Ok(())
    }
}


impl WriteBuffer {
    /// Delete (`dimension`, `key`): pending for the next commit unless the
    /// dimension is local-only, and dropped from the cache either way.
    pub fn delete(&mut self, dimension: u8, key: &[u8; 32]) -> (r: StorageResult<()>)
        requires
            old(self).wf(),
        ensures
            final(self).wf(),
            final(self).unknown_view() == old(self).unknown_view(),
            r is Err ==> *final(self) == *old(self),
            old(self).unknown_view() matches Some(e) ==> r matches Err(x) && same_error(x, e),
            old(self).unknown_view() is None ==> delete_outcome(*old(self), *final(self), dimension, *key, r),
    {
        self.ready()?;
        check_dimension(dimension)?;
        let a = make_entry_key(dimension, key);
        let ghost p = self.pending();
        proof {
            use_type_invariant(&self.positions);
            use_type_invariant(&self.deleted);
            self.deleted.lemma_wf();
            self.positions.lemma_wf();
        }
        if dimension != dim::EPHEMERAL {
            self.check_key_capacity(dimension, key)?;
            let ghost before = *self;
            let removed_at = self.positions.remove(a.as_slice());
            match removed_at {
                Some(i) => {
                    proof {
                        lemma_total_swap_remove(self.dirty@, i as int);
                        lemma_total_member(self.dirty@, i as int);
                    }
                    let removed = self.dirty.swap_remove(i);
                    self.elements = self.elements - removed.2.len();
                    if i < self.dirty.len() {
                        let moved = make_entry_key(self.dirty[i].0, &self.dirty[i].1);
                        proof {
                            assert(before.dirty@[before.dirty@.len() - 1] == self.dirty@[i as int]);
                        }
                        self.positions.set(moved, i);
                    }
                    proof {
                        assert forall|j: int| 0 <= j < self.dirty@.len() implies self.positions@.dom().contains(
                            dirty_key(#[trigger] self.dirty@[j]),
                        ) && self.positions@[dirty_key(self.dirty@[j])] == j by {
                            if j != i {
                                assert(self.dirty@[j] == before.dirty@[j]);
                                assert(dirty_key(before.dirty@[j]) != a@);
                                if i < self.dirty@.len() {
                                    assert(dirty_key(before.dirty@[j]) != dirty_key(before.dirty@[before.dirty@.len() - 1]));
                                }
                            }
                        }
                        assert forall|b: Seq<u8>| #[trigger] self.positions@.dom().contains(b) implies self.positions@[b]
                            < self.dirty@.len() && dirty_key(self.dirty@[self.positions@[b] as int]) == b by {
                            if i < self.dirty@.len() && b == dirty_key(self.dirty@[i as int]) {
                            } else {
                                assert(before.positions@.dom().contains(b) && b != a@);
                                let j = before.positions@[b] as int;
                                if j == before.dirty@.len() - 1 {
                                    assert(b == dirty_key(before.dirty@[before.dirty@.len() - 1]));
                                }
                            }
                        }
                        assert(self.dirty_view() =~= before.dirty_view().update(
                            i as int,
                            before.dirty_view().last(),
                        ).drop_last());
                    }
                },
                None => {},
            }
            let ghost mid = *self;
            proof {
                vstd::set::axiom_set_insert_len(mid.deleted@.dom(), a@);
            }
            self.deleted.set(copy_bytes(a.as_slice()), true);
            proof {
                assert(self.deleted@.dom() =~= mid.deleted@.dom().insert(a@));
                assert(self.pending() =~= p.insert(a@, None));
            }
        }
        self.cache.remove(a.as_slice());
        proof {
            assert(self.cache_view() =~= old(self).cache_view().remove(a@));
        }
        Ok(())
    }
}


/// A pending change by value.
pub open spec fn change_view(e: (Seq<u8>, Option<Vec<u64>>)) -> (Seq<u8>, Option<Seq<u64>>) {
    (
        e.0,
        match e.1 {
            Some(v) => Some(v@),
            None => None,
        },
    )
}

/// One change in a batch identity: its address, then `1`, the element
/// count and the elements, or `0` for a deletion.
pub open spec fn change_record(e: (Seq<u8>, Option<Seq<u64>>)) -> Seq<u8> {
    e.0 + match e.1 {
        Some(v) => seq![1u8] + le64(v.len() as u64) + field_bytes(v),
        None => seq![0u8],
    }
}

pub open spec fn change_records(s: Seq<(Seq<u8>, Option<Seq<u64>>)>) -> Seq<u8>
    decreases s.len(),
{
    if s.len() == 0 {
        Seq::empty()
    } else {
        change_records(s.drop_last()) + change_record(s.last())
    }
}

/// The bytes that identify a batch of shard changes in address order.
pub open spec fn shard_batch_bytes(s: Seq<(Seq<u8>, Option<Seq<u64>>)>) -> Seq<u8> {
    "bbg/shard-batch/v1\0".spec_bytes() + le64(s.len() as u64) + change_records(s)
}

/// Cached values by value.
pub open spec fn values_of(m: Map<Seq<u8>, Vec<u64>>) -> Map<Seq<u8>, Seq<u64>> {
    m.map_values(|w: Vec<u64>| w@)
}

/// A cache restricted to the local-only dimension.
pub open spec fn local_only(m: Map<Seq<u8>, Seq<u64>>) -> Map<Seq<u8>, Seq<u64>> {
    Map::new(|a: Seq<u8>| m.dom().contains(a) && a.len() >= 1 && a[0] == dim::EPHEMERAL, |a: Seq<u8>| m[a])
}

proof fn lemma_map_of_changes(s: Seq<(Seq<u8>, Option<Vec<u64>>)>)
    ensures
        map_of(s.map_values(|e: (Seq<u8>, Option<Vec<u64>>)| change_view(e))) == map_of(s).map_values(
            |v: Option<Vec<u64>>|
                match v {
                    Some(w) => Some(w@),
                    None => None,
                },
        ),
    decreases s.len(),
{
    let f = |e: (Seq<u8>, Option<Vec<u64>>)| change_view(e);
    if s.len() > 0 {
        lemma_map_of_changes(s.drop_last());
        assert(s.map_values(f).drop_last() =~= s.drop_last().map_values(f));
    }
    assert(map_of(s.map_values(f)) =~= map_of(s).map_values(
        |v: Option<Vec<u64>>|
            match v {
                Some(w) => Some(w@),
                None => None,
            },
    ));
}

/// The item that a cached row contributes to a scan: its key without the
/// dimension and a copy of its value, refused beyond the element budget.
pub open spec fn cache_item(row: (Seq<u8>, Seq<u64>), max_elements: nat) -> Result<(Seq<u8>, Seq<u64>), StorageError> {
    if row.1.len() > max_elements {
        Err(StorageError::Limit("value exceeds read budget"))
    } else {
        Ok((row.0.drop_first(), row.1))
    }
}

/// Whether a cached row belongs to `dimension` and lies after the cursor.
pub open spec fn cache_selected(a: Seq<u8>, dimension: u8, after: Option<Seq<u8>>) -> bool {
    a.len() == 33 && a[0] == dimension && match after {
        Some(c) => lex_lt(entry_key(dimension, c), a),
        None => true,
    }
}

/// The items that a scan of the cache reads from `rows`, in order.
pub open spec fn cache_items(rows: Seq<(Seq<u8>, Seq<u64>)>, dimension: u8, after: Option<Seq<u8>>, max_elements: nat) -> Seq<
    Result<(Seq<u8>, Seq<u64>), StorageError>,
>
    decreases rows.len(),
{
    if rows.len() == 0 {
        Seq::empty()
    } else {
        let prev = cache_items(rows.drop_last(), dimension, after, max_elements);
        if cache_selected(rows.last().0, dimension, after) {
            prev.push(cache_item(rows.last(), max_elements))
        } else {
            prev
        }
    }
}

proof fn lemma_map_of_values(s: Seq<(Seq<u8>, Vec<u64>)>)
    ensures
        map_of(s.map_values(|e: (Seq<u8>, Vec<u64>)| (e.0, e.1@))) == values_of(map_of(s)),
    decreases s.len(),
{
    let f = |e: (Seq<u8>, Vec<u64>)| (e.0, e.1@);
    if s.len() > 0 {
        lemma_map_of_values(s.drop_last());
        assert(s.map_values(f).drop_last() =~= s.drop_last().map_values(f));
    }
    assert(map_of(s.map_values(f)) =~= values_of(map_of(s)));
}

proof fn lemma_cache_items_split(rows: Seq<(Seq<u8>, Seq<u64>)>, i: int, dimension: u8, after: Option<Seq<u8>>, max_elements: nat)
    requires
        0 <= i <= rows.len(),
    ensures
        cache_items(rows, dimension, after, max_elements) == cache_items(rows.take(i), dimension, after, max_elements)
            + cache_items(rows.skip(i), dimension, after, max_elements),
    decreases rows.len(),
{
    if i == rows.len() {
        assert(rows.take(i) =~= rows);
        assert(rows.skip(i).len() == 0);
        assert(cache_items(rows, dimension, after, max_elements) + Seq::empty() =~= cache_items(
            rows,
            dimension,
            after,
            max_elements,
        ));
    } else {
        lemma_cache_items_split(rows.drop_last(), i, dimension, after, max_elements);
        assert(rows.drop_last().take(i) =~= rows.take(i));
        assert(rows.drop_last().skip(i) =~= rows.skip(i).drop_last());
        assert(rows.skip(i).last() == rows.last());
        let a = cache_items(rows.take(i), dimension, after, max_elements);
        let b = cache_items(rows.skip(i).drop_last(), dimension, after, max_elements);
        assert((a + b).push(cache_item(rows.last(), max_elements)) =~= a + b.push(cache_item(rows.last(), max_elements)));
    }
}

proof fn lemma_page_prefix(
    s: Seq<Result<(Seq<u8>, Seq<u64>), StorageError>>,
    t: Seq<Result<(Seq<u8>, Seq<u64>), StorageError>>,
    max_entries: nat,
    max_elements: nat,
    used: nat,
)
    requires
        s.len() >= max_entries,
    ensures
        page_of(s + t, max_entries, max_elements, used) == page_of(s, max_entries, max_elements, used),
    decreases max_entries,
{
    if max_entries > 0 {
        assert((s + t)[0] == s[0]);
        assert((s + t).drop_first() =~= s.drop_first() + t);
        match s[0] {
            Ok((k, v)) => {
                lemma_page_prefix(s.drop_first(), t, (max_entries - 1) as nat, max_elements, used + v.len());
            },
            Err(_) => {},
        }
    }
}

/// The cached rows of `dimension`, keys without the dimension, in key order.
pub open spec fn dimension_rows(rows: Seq<(Seq<u8>, Seq<u64>)>, dimension: u8) -> Seq<(Seq<u8>, Seq<u64>)>
    decreases rows.len(),
{
    if rows.len() == 0 {
        Seq::empty()
    } else {
        let prev = dimension_rows(rows.drop_last(), dimension);
        if cache_selected(rows.last().0, dimension, None) {
            prev.push((rows.last().0.drop_first(), rows.last().1))
        } else {
            prev
        }
    }
}

/// A batch of no changes has one identity.
pub proof fn lemma_empty_batch(id: Seq<u8>)
    requires
        exists|s: Seq<(Seq<u8>, Option<Seq<u64>>)>|
            sorted(s) && map_of(s) == Map::<Seq<u8>, Option<Seq<u64>>>::empty() && id == hemera_digest(
                #[trigger] shard_batch_bytes(s),
            ),
    ensures
        id == hemera_digest(shard_batch_bytes(Seq::empty())),
{
    let s = choose|s: Seq<(Seq<u8>, Option<Seq<u64>>)>|
        sorted(s) && map_of(s) == Map::<Seq<u8>, Option<Seq<u64>>>::empty() && id == hemera_digest(
            #[trigger] shard_batch_bytes(s),
        );
    if s.len() > 0 {
        crate::ordered::lemma_sorted_unique(s);
        lemma_map_of_index(s, 0);
    }
    assert(s =~= Seq::<(Seq<u8>, Option<Seq<u64>>)>::empty());
}

impl WriteBuffer {
    /// Cached values in address order.
    pub closed spec fn cache_rows(&self) -> Seq<(Seq<u8>, Seq<u64>)> {
        self.cache.entries().map_values(|e: (Seq<u8>, Vec<u64>)| (e.0, e.1@))
    }

    /// Pending addresses name an entry of a durable dimension, and pending
    /// values could be written again.
    pub proof fn lemma_pending_facts(&self)
        requires
            self.wf(),
        ensures
            forall|a: Seq<u8>| #[trigger] self.pending().dom().contains(a) ==> a.len() == 33 && a[0] < dim::EPHEMERAL && (
            self.pending()[a] matches Some(v) ==> storable(v)),
    {
        assert forall|a: Seq<u8>| #[trigger] self.pending().dom().contains(a) implies a.len() == 33 && a[0]
            < dim::EPHEMERAL && (self.pending()[a] matches Some(v) ==> storable(v)) by {
            if self.positions@.dom().contains(a) {
                let i = self.positions@[a] as int;
                assert(dirty_key(self.dirty@[i]) == a);
                assert(self.dirty@[i].0 < dim::EPHEMERAL && storable(self.dirty@[i].2@));
            }
        }
    }

    /// Every cached value could be written again.
    pub proof fn lemma_cache_storable(&self)
        requires
            self.wf(),
        ensures
            forall|a: Seq<u8>| #[trigger] self.cache_view().dom().contains(a) ==> storable(self.cache_view()[a]),
    {
        assert forall|a: Seq<u8>| #[trigger] self.cache_view().dom().contains(a) implies storable(self.cache_view()[a]) by {
            assert(self.cache@.dom().contains(a));
        }
    }

    /// Whether a commit's outcome is unknown.
    pub fn unknown_is_some(&self) -> (r: bool)
        ensures
            r == self.unknown_view() is Some,
    {
        self.unknown.is_some()
    }

    /// The cached entries of `dimension` in key order.
    pub fn cached_in(&self, dimension: u8) -> (s: Vec<ShardEntry>)
        ensures
            crate::storage::access::entries_view(s@) == dimension_rows(self.cache_rows(), dimension),
    {
        let ghost rows = self.cache_rows();
        let mut out: Vec<ShardEntry> = Vec::new();
        let mut i: usize = 0;
        while i < self.cache.len()
            invariant
                rows == self.cache_rows(),
                i <= rows.len(),
                rows.len() == self.cache.entries().len(),
                crate::storage::access::entries_view(out@) == dimension_rows(rows.take(i as int), dimension),
            decreases rows.len() - i,
        {
            let (a, v) = self.cache.entry(i);
            proof {
                assert(rows.take(i + 1).drop_last() =~= rows.take(i as int));
                assert(rows.take(i + 1).last() == rows[i as int]);
                assert(rows[i as int] == (a@, v@));
            }
            if a.len() == 33 && a[0] == dimension {
                let key = read_array32(a.as_slice(), 1);
                let ghost before = crate::storage::access::entries_view(out@);
                out.push((key, copy_values(v.as_slice())));
                proof {
                    assert(key@ =~= a@.drop_first());
                    assert(crate::storage::access::entries_view(out@) =~= before.push((a@.drop_first(), v@)));
                }
            }
            i = i + 1;
        }
        proof {
            assert(rows.take(i as int) =~= rows);
        }
        out
    }

    /// Pending changes always reach at least one shard row.
    pub proof fn lemma_pending_nonempty(&self)
        requires
            self.wf(),
            self.pending_keys() > 0,
        ensures
            exists|b: Seq<u8>| #[trigger] shard_changes(self.pending()).dom().contains(b),
    {
        let a = if self.dirty@.len() > 0 {
            dirty_key(self.dirty@[0])
        } else {
            vstd::set::axiom_set_choose_len(self.deleted@.dom());
            self.deleted@.dom().choose()
        };
        assert(self.pending().dom().contains(a));
        assert(a.len() == 33 && a[0] < dim::EPHEMERAL);
        let d = a[0];
        let k = a.drop_first();
        assert(a =~= entry_key(d, k));
        lemma_shard_changes_insert(self.pending(), d, k, self.pending()[a]);
        assert(self.pending().insert(a, self.pending()[a]) =~= self.pending());
        assert(shard_changes(self.pending()).dom().contains(address(Table::Shard(d), k)));
    }

    /// The cached rows of `dimension` after `after`, as a bounded page.
    pub fn scan_cache(&self, dimension: u8, after: Option<[u8; 32]>, limits: ScanLimits) -> (r: StorageResult<Vec<ShardEntry>>)
        ensures
            dimension > dim::EPHEMERAL ==> r == Err::<Vec<ShardEntry>, StorageError>(StorageError::InvalidDimension(dimension)),
            dimension <= dim::EPHEMERAL && !limits.valid() ==> r == Err::<Vec<ShardEntry>, StorageError>(limits.validate_spec()),
            dimension <= dim::EPHEMERAL && limits.valid() ==> page_view(r) == page_of(
                cache_items(
                    self.cache_rows(),
                    dimension,
                    match after {
                        Some(c) => Some(c@),
                        None => None,
                    },
                    limits.max_elements as nat,
                ),
                limits.max_entries as nat,
                limits.max_elements as nat,
                0,
            ),
            sorted(self.cache_rows()),
            map_of(self.cache_rows()) == self.cache_view(),
    {
        proof {
            use_type_invariant(&self.cache);
            let e = self.cache.entries();
            let rows = self.cache_rows();
            assert forall|x: int, y: int| 0 <= x < y < rows.len() implies lex_lt(#[trigger] rows[x].0, #[trigger] rows[y].0) by {
                assert(rows[x].0 == e[x].0 && rows[y].0 == e[y].0);
            }
            lemma_map_of_values(e);
        }
        check_dimension(dimension)?;
        limits.validate()?;
        let ghost cursor = match after {
            Some(c) => Some(c@),
            None => None,
        };
        let ghost rows = self.cache_rows();
        let ghost max_elements = limits.max_elements as nat;
        let start: Option<Vec<u8>> = match after {
            Some(c) => Some(make_entry_key(dimension, &c)),
            None => None,
        };
        let mut items: Vec<ScanItem> = Vec::new();
        let mut i: usize = 0;
        proof {
            assert(rows.take(0) =~= Seq::<(Seq<u8>, Seq<u64>)>::empty());
        }
        while i < self.cache.len() && items.len() < limits.max_entries
            invariant
                rows == self.cache_rows(),
                i <= rows.len(),
                rows.len() == self.cache.entries().len(),
                limits.valid(),
                max_elements == limits.max_elements,
                match start {
                    Some(s) => cursor is Some && s@ == entry_key(dimension, cursor->Some_0),
                    None => cursor is None,
                },
                items_view(items@) == cache_items(rows.take(i as int), dimension, cursor, max_elements),
            decreases rows.len() - i,
        {
            let (a, v) = self.cache.entry(i);
            proof {
                assert(rows.take(i + 1).drop_last() =~= rows.take(i as int));
                assert(rows.take(i + 1).last() == rows[i as int]);
                assert(rows[i as int] == (a@, v@));
            }
            let after_cursor = match &start {
                Some(s) => match compare_bytes(s.as_slice(), a.as_slice()) {
                    ByteOrder::Less => true,
                    _ => false,
                },
                None => true,
            };
            proof {
                assert(cache_selected(a@, dimension, cursor) == (a@.len() == 33 && a@[0] == dimension && after_cursor));
            }
            if a.len() == 33 && a[0] == dimension && after_cursor {
                let key = read_array32(a.as_slice(), 1);
                let item: ScanItem = match copy_value(v.as_slice(), limits.max_elements) {
                    Ok(copy) => Ok((key, copy)),
                    Err(e) => Err(e),
                };
                let ghost before = items_view(items@);
                items.push(item);
                proof {
                    assert(key@ =~= a@.drop_first());
                    assert(item_view(item) == cache_item(rows[i as int], max_elements));
                    assert(items_view(items@) =~= before.push(item_view(item)));
                }
            }
            i = i + 1;
        }
        proof {
            lemma_cache_items_split(rows, i as int, dimension, cursor, max_elements);
            if i < rows.len() {
                lemma_page_prefix(
                    items_view(items@),
                    cache_items(rows.skip(i as int), dimension, cursor, max_elements),
                    limits.max_entries as nat,
                    max_elements,
                    0,
                );
            } else {
                assert(rows.take(i as int) =~= rows);
            }
        }
        collect_page(items, limits)
    }
}

impl WriteBuffer {
    /// Whether anything awaits a commit.
    pub fn has_pending(&self) -> (r: bool)
        requires
            self.wf(),
        ensures
            r == (self.pending_keys() > 0),
            !r ==> self.pending() == Map::<Seq<u8>, Option<Seq<u64>>>::empty(),
    {
        proof {
            use_type_invariant(&self.deleted);
            self.deleted.lemma_wf();
            crate::ordered::lemma_unique_len(self.deleted.entries());
            if self.dirty@.len() == 0 && self.deleted@.dom().len() == 0 {
                self.deleted@.dom().lemma_len0_is_empty();
                assert(self.pending() =~= Map::<Seq<u8>, Option<Seq<u64>>>::empty());
            }
        }
        self.dirty.len() > 0 || self.deleted.len() > 0
    }

    /// The written entries in write order.
    pub fn dirty_entries(&self) -> (s: &[DirtyEntry])
        ensures
            s@.map_values(|e: DirtyEntry| (e.0, e.1, e.2@)) == self.dirty_view(),
    {
        self.dirty.as_slice()
    }

    /// The cached value of an entry.
    pub fn cached(&self, dimension: u8, key: &[u8; 32]) -> (r: Option<&Vec<u64>>)
        ensures
            match r {
                Some(v) => self.cache_view().dom().contains(entry_key(dimension, key@)) && v@ == self.cache_view()[entry_key(
                    dimension,
                    key@,
                )],
                None => !self.cache_view().dom().contains(entry_key(dimension, key@)),
            },
    {
        let a = make_entry_key(dimension, key);
        self.cache.get(a.as_slice())
    }

    /// Whether an entry is pending deletion.
    pub fn is_deleted(&self, dimension: u8, key: &[u8; 32]) -> (r: bool)
        requires
            self.wf(),
        ensures
            r == (self.pending().dom().contains(entry_key(dimension, key@)) && self.pending()[entry_key(
                dimension,
                key@,
            )] is None),
    {
        let a = make_entry_key(dimension, key);
        self.deleted.get(a.as_slice()).is_some()
    }

    /// Ok when nothing awaits a commit and no commit's outcome is unknown.
    pub fn clean(&self) -> (r: StorageResult<()>)
        requires
            self.wf(),
        ensures
            self.unknown_view() matches Some(e) ==> r matches Err(x) && same_error(x, e),
            self.unknown_view() is None && self.pending_keys() > 0 ==> r == Err::<(), StorageError>(
                StorageError::PendingWrites,
            ),
            self.unknown_view() is None && self.pending_keys() == 0 ==> r is Ok,
    {
        self.ready()?;
        if self.has_pending() {
            return Err(StorageError::PendingWrites);
        }
        Ok(())
    }

    /// Record the failure of a commit whose outcome is unknown.
    pub fn fail(&mut self, error: StorageError)
        requires
            old(self).wf(),
        ensures
            final(self).wf(),
            final(self).unknown_view() == Some(error),
            final(self).pending() == old(self).pending(),
            final(self).dirty_view() == old(self).dirty_view(),
            final(self).cache_view() == old(self).cache_view(),
    {
        self.unknown = Some(error);
    }

    /// Forget every pending change.
    pub fn clear_pending(&mut self)
        requires
            old(self).wf(),
        ensures
            final(self).wf(),
            final(self).pending() == Map::<Seq<u8>, Option<Seq<u64>>>::empty(),
            final(self).dirty_view() == Seq::<(u8, [u8; 32], Seq<u64>)>::empty(),
            final(self).cache_view() == old(self).cache_view(),
            final(self).unknown_view() == old(self).unknown_view(),
    {
        self.dirty = Vec::new();
        self.deleted = OrderedMap::new();
        self.positions = OrderedMap::new();
        self.elements = 0;
        proof {
            assert(self.pending() =~= Map::<Seq<u8>, Option<Seq<u64>>>::empty());
            assert(self.deleted@.dom() =~= Set::<Seq<u8>>::empty());
            assert(self.dirty_view() =~= Seq::<(u8, [u8; 32], Seq<u64>)>::empty());
        }
    }

    /// After a commit the rows are authoritative: forget pending changes and
    /// keep only cached values of the local-only dimension.
    pub fn finish(&mut self)
        requires
            old(self).wf(),
        ensures
            final(self).wf(),
            final(self).pending() == Map::<Seq<u8>, Option<Seq<u64>>>::empty(),
            final(self).dirty_view() == Seq::<(u8, [u8; 32], Seq<u64>)>::empty(),
            final(self).cache_view() == local_only(old(self).cache_view()),
            final(self).unknown_view() == old(self).unknown_view(),
    {
        self.clear_pending();
        let mut kept: OrderedMap<Vec<u64>> = OrderedMap::new();
        let ghost e = self.cache.entries();
        proof {
            assert(map_of(e.take(0)) =~= Map::<Seq<u8>, Vec<u64>>::empty());
            assert(values_of(kept@) =~= local_only(values_of(map_of(e.take(0)))));
        }
        let mut i: usize = 0;
        while i < self.cache.len()
            invariant
                i <= e.len(),
                e == self.cache.entries(),
                values_of(kept@) == local_only(values_of(map_of(e.take(i as int)))),
            decreases e.len() - i,
        {
            let (a, v) = self.cache.entry(i);
            proof {
                assert(e.take(i + 1).drop_last() =~= e.take(i as int));
                assert(e.take(i + 1).last() == e[i as int]);
            }
            let ghost k0 = kept@;
            let ghost m0 = map_of(e.take(i as int));
            proof {
                assert(map_of(e.take(i + 1)) == m0.insert(a@, *v));
                assert(values_of(m0.insert(a@, *v)) =~= values_of(m0).insert(a@, v@));
            }
            if a.len() >= 1 && a[0] == dim::EPHEMERAL {
                kept.set(copy_bytes(a.as_slice()), copy_values(v.as_slice()));
                proof {
                    assert(values_of(kept@) =~= values_of(k0).insert(a@, v@));
                    assert(values_of(kept@) =~= local_only(values_of(map_of(e.take(i + 1)))));
                }
            } else {
                proof {
                    assert(values_of(kept@) =~= local_only(values_of(map_of(e.take(i + 1)))));
                }
            }
            i = i + 1;
        }
        proof {
            assert(e.take(i as int) =~= e);
            assert(map_of(e) == self.cache@);
        }
        self.cache = kept;
        proof {
            assert(self.cache_view() =~= local_only(old(self).cache_view()));
            assert forall|a: Seq<u8>| #[trigger] self.cache@.dom().contains(a) implies a.len() == 33 && storable(
                self.cache@[a]@,
            ) by {
                assert(self.cache_view().dom().contains(a));
                assert(old(self).cache@.dom().contains(a));
                assert(self.cache_view()[a] == old(self).cache_view()[a]);
            }
        }
    }
}


/// Pending changes by value.
pub open spec fn changes_of(m: Map<Seq<u8>, Option<Vec<u64>>>) -> Map<Seq<u8>, Option<Seq<u64>>> {
    m.map_values(
        |v: Option<Vec<u64>>|
            match v {
                Some(w) => Some(w@),
                None => None,
            },
    )
}

proof fn lemma_changes_insert(m: Map<Seq<u8>, Option<Vec<u64>>>, k: Seq<u8>, v: Option<Vec<u64>>)
    ensures
        changes_of(m.insert(k, v)) == changes_of(m).insert(k, change_view((k, v)).1),
{
    assert(changes_of(m.insert(k, v)) =~= changes_of(m).insert(k, change_view((k, v)).1));
}

/// The dimension whose shard table has code `c`.
pub open spec fn shard_dimension(c: u8) -> u8 {
    table_of_code(c)->Shard_0
}

/// The shard rows that pending changes write: every written value encoded
/// and every deletion as `None`, each at its shard table address.
pub open spec fn shard_changes(p: Map<Seq<u8>, Option<Seq<u64>>>) -> Map<Seq<u8>, Option<Seq<u8>>> {
    Map::new(
        |b: Seq<u8>|
            b.len() == 33 && code_valid(b[0]) && is_shard_code(b[0]) && p.dom().contains(
                entry_key(shard_dimension(b[0]), b.drop_first()),
            ),
        |b: Seq<u8>|
            match p[entry_key(shard_dimension(b[0]), b.drop_first())] {
                Some(v) => Some(field_bytes(v)),
                None => None,
            },
    )
}

pub proof fn lemma_shard_changes_insert(p: Map<Seq<u8>, Option<Seq<u64>>>, dimension: u8, key: Seq<u8>, v: Option<Seq<u64>>)
    requires
        dimension < dim::EPHEMERAL,
        key.len() == 32,
    ensures
        shard_changes(p.insert(entry_key(dimension, key), v)) == shard_changes(p).insert(
            address(Table::Shard(dimension), key),
            match v {
                Some(w) => Some(field_bytes(w)),
                None => None,
            },
        ),
{
    let t = Table::Shard(dimension);
    let b0 = address(t, key);
    lemma_table_code(t);
    assert(b0.drop_first() =~= key);
    assert(b0[0] == crate::storage::table::table_code(t));
    let q = p.insert(entry_key(dimension, key), v);
    assert forall|b: Seq<u8>|
        b.len() == 33 && code_valid(b[0]) && is_shard_code(b[0]) && entry_key(shard_dimension(b[0]), b.drop_first())
            == entry_key(dimension, key) implies b == b0 by {
        lemma_code_table(b[0]);
        assert(entry_key(shard_dimension(b[0]), b.drop_first())[0] == shard_dimension(b[0]));
        assert(entry_key(dimension, key)[0] == dimension);
        assert(b.drop_first() =~= entry_key(shard_dimension(b[0]), b.drop_first()).drop_first());
        assert(key =~= entry_key(dimension, key).drop_first());
        assert(b =~= b0);
    }
    assert(shard_changes(q) =~= shard_changes(p).insert(
        b0,
        match v {
            Some(w) => Some(field_bytes(w)),
            None => None,
        },
    ));
}

proof fn lemma_total_prefix(s: Seq<DirtyEntry>, n: int)
    requires
        0 <= n <= s.len(),
    ensures
        values_total(s.take(n)) <= values_total(s),
    decreases s.len(),
{
    if n < s.len() {
        lemma_total_prefix(s.drop_last(), n);
        assert(s.drop_last().take(n) =~= s.take(n));
    } else {
        assert(s.take(n) =~= s);
    }
}

impl WriteBuffer {
    /// The written part of the pending changes, for entries before position `i`.
    closed spec fn written_before(&self, i: int) -> Map<Seq<u8>, Option<Seq<u64>>> {
        Map::new(
            |a: Seq<u8>| self.positions@.dom().contains(a) && self.positions@[a] < i,
            |a: Seq<u8>| Some(self.dirty@[self.positions@[a] as int].2@),
        )
    }

    proof fn lemma_written_step(&self, i: int)
        requires
            self.wf(),
            0 <= i < self.dirty@.len(),
        ensures
            self.written_before(i + 1) == self.written_before(i).insert(
                dirty_key(self.dirty@[i]),
                Some(self.dirty@[i].2@),
            ),
    {
        let av = dirty_key(self.dirty@[i]);
        assert(self.positions@.dom().contains(av) && self.positions@[av] == i);
        let wb = self.written_before(i);
        assert forall|b: Seq<u8>| #[trigger] self.written_before(i + 1).dom().contains(b) implies wb.insert(
            av,
            Some(self.dirty@[i].2@),
        ).dom().contains(b) by {
            if b != av {
                assert(self.positions@[b] != i);
                assert(wb.dom().contains(b));
            }
        }
        assert(wb.insert(av, Some(self.dirty@[i].2@)) =~= self.written_before(i + 1));
    }

    proof fn lemma_written_all(&self)
        requires
            self.wf(),
        ensures
            forall|a: Seq<u8>| #[trigger] self.deleted@.dom().contains(a) ==> !self.written_before(self.dirty@.len() as int).dom().contains(a),
            self.pending() == Map::new(
                |a: Seq<u8>| self.written_before(self.dirty@.len() as int).dom().contains(a) || self.deleted@.dom().contains(a),
                |a: Seq<u8>| if self.written_before(self.dirty@.len() as int).dom().contains(a) {
                    self.written_before(self.dirty@.len() as int)[a]
                } else {
                    None
                },
            ),
    {
        let w = self.written_before(self.dirty@.len() as int);
        assert(self.pending() =~= Map::new(
            |a: Seq<u8>| w.dom().contains(a) || self.deleted@.dom().contains(a),
            |a: Seq<u8>| if w.dom().contains(a) { w[a] } else { None },
        ));
    }

    /// Stage every pending change into `tx`: each written value into its
    /// shard table, each deletion as a removal. The pending limits keep the
    /// batch within the transaction budget, so staging always succeeds.
    pub fn stage_changes(&self, tx: &mut Transaction<'_>) -> (r: StorageResult<()>)
        requires
            self.wf(),
            old(tx).wf(),
            old(tx).staged() == Map::<Seq<u8>, Option<Seq<u8>>>::empty(),
            old(tx).staged_bytes() == 0,
        ensures
            r is Ok,
            final(tx).wf(),
            final(tx).committed() == old(tx).committed(),
            final(tx).committed_entries() == old(tx).committed_entries(),
            final(tx).staged() == shard_changes(self.pending()),
    {
        proof {
            assert(shard_changes(self.written_before(0)) =~= Map::<Seq<u8>, Option<Seq<u8>>>::empty());
            lemma_total_nonneg(self.dirty@);
        }
        let mut i: usize = 0;
        while i < self.dirty.len()
            invariant
                self.wf(),
                i <= self.dirty@.len(),
                tx.wf(),
                tx.committed() == old(tx).committed(),
                tx.committed_entries() == old(tx).committed_entries(),
                tx.staged() == shard_changes(self.written_before(i as int)),
                tx.staged().dom().finite(),
                tx.staged().dom().len() <= i,
                tx.staged_bytes() <= 32 * i + 8 * values_total(self.dirty@.take(i as int)),
            decreases self.dirty@.len() - i,
        {
            let e = &self.dirty[i];
            proof {
                let t = self.dirty@.take(i + 1);
                assert(t.drop_last() =~= self.dirty@.take(i as int));
                assert(t.last() == self.dirty@[i as int]);
                lemma_total_prefix(self.dirty@, i + 1);
                assert(e.0 < dim::EPHEMERAL && storable(e.2@));
                assert(8 * values_total(t) <= 8 * MAX_PENDING_ELEMENTS);
                self.lemma_written_step(i as int);
                lemma_shard_changes_insert(self.written_before(i as int), e.0, e.1@, Some(e.2@));
            }
            tx.put_shard(e.0, e.1, e.2.as_slice())?;
            i = i + 1;
        }
        let ghost written = self.written_before(self.dirty@.len() as int);
        let ghost d = self.deleted.entries();
        let ghost base_bytes = tx.staged_bytes();
        proof {
            use_type_invariant(&self.deleted);
            self.deleted.lemma_wf();
            crate::ordered::lemma_unique_len(d);
            self.lemma_written_all();
            assert(self.dirty@.take(self.dirty@.len() as int) =~= self.dirty@);
            assert(map_of(d.take(0)) =~= Map::<Seq<u8>, bool>::empty());
            assert(Map::new(
                |a: Seq<u8>| written.dom().contains(a) || map_of(d.take(0)).dom().contains(a),
                |a: Seq<u8>| if written.dom().contains(a) { written[a] } else { None },
            ) =~= written);
        }
        let mut j: usize = 0;
        while j < self.deleted.len()
            invariant
                self.wf(),
                j <= d.len(),
                d == self.deleted.entries(),
                unique(d),
                d.len() == self.deleted@.dom().len(),
                written == self.written_before(self.dirty@.len() as int),
                forall|a: Seq<u8>| #[trigger] self.deleted@.dom().contains(a) ==> !written.dom().contains(a),
                tx.wf(),
                tx.committed() == old(tx).committed(),
                tx.committed_entries() == old(tx).committed_entries(),
                tx.staged() == shard_changes(Map::new(
                    |a: Seq<u8>| written.dom().contains(a) || map_of(d.take(j as int)).dom().contains(a),
                    |a: Seq<u8>| if written.dom().contains(a) { written[a] } else { None },
                )),
                tx.staged().dom().finite(),
                tx.staged().dom().len() <= self.dirty@.len() + j,
                tx.staged_bytes() <= 32 * (self.dirty@.len() + j) + 8 * values_total(self.dirty@),
            decreases d.len() - j,
        {
            let (a, _) = self.deleted.entry(j);
            let ghost m0 = Map::new(
                |b: Seq<u8>| written.dom().contains(b) || map_of(d.take(j as int)).dom().contains(b),
                |b: Seq<u8>| if written.dom().contains(b) { written[b] } else { None },
            );
            proof {
                assert(d.take(j + 1).drop_last() =~= d.take(j as int));
                assert(map_of(d.take(j + 1)) == map_of(d.take(j as int)).insert(a@, d[j as int].1));
                crate::ordered::lemma_map_of_index(d, j as int);
                assert(self.deleted@.dom().contains(a@));
                assert(!written.dom().contains(a@));
                assert(a@.len() == 33 && a@[0] < dim::EPHEMERAL);
                assert(Map::new(
                    |b: Seq<u8>| written.dom().contains(b) || map_of(d.take(j + 1)).dom().contains(b),
                    |b: Seq<u8>| if written.dom().contains(b) { written[b] } else { None },
                ) =~= m0.insert(a@, None));
                lemma_total_nonneg(self.dirty@);
            }
            let key = read_array32(a.as_slice(), 1);
            proof {
                assert(a@ =~= entry_key(a@[0], key@));
                lemma_shard_changes_insert(m0, a@[0], key@, None);
                crate::storage::table::lemma_table_code(Table::Shard(a@[0]));
            }
            tx.remove(Table::Shard(a[0]), &key)?;
            j = j + 1;
        }
        proof {
            assert(d.take(j as int) =~= d);
            crate::ordered::lemma_map_of_has_key(d, Seq::<u8>::empty());
            assert(map_of(d).dom() =~= self.deleted@.dom());
        }
        Ok(())
    }

    /// The identity of the pending batch: a digest of its changes in address
    /// order, each with its value or as a deletion.
    pub fn change_id(&self) -> (id: [u8; 32])
        requires
            self.wf(),
        ensures
            exists|s: Seq<(Seq<u8>, Option<Seq<u64>>)>|
                sorted(s) && map_of(s) == self.pending() && id@ == hemera_digest(#[trigger] shard_batch_bytes(s)),
    {
        let mut changes: OrderedMap<Option<Vec<u64>>> = OrderedMap::new();
        proof {
            assert(changes_of(changes@) =~= self.written_before(0));
        }
        let mut i: usize = 0;
        while i < self.dirty.len()
            invariant
                self.wf(),
                i <= self.dirty@.len(),
                changes_of(changes@) == self.written_before(i as int),
            decreases self.dirty@.len() - i,
        {
            let ghost c0 = changes@;
            let e = &self.dirty[i];
            let a = make_entry_key(e.0, &e.1);
            let ghost av = a@;
            let w = copy_values(e.2.as_slice());
            changes.set(a, Some(w));
            proof {
                self.lemma_written_step(i as int);
                lemma_changes_insert(c0, av, Some(w));
            }
            i = i + 1;
        }
        let ghost written = changes_of(changes@);
        let ghost d = self.deleted.entries();
        proof {
            use_type_invariant(&self.deleted);
            assert(map_of(d.take(0)) =~= Map::<Seq<u8>, bool>::empty());
            assert(changes_of(changes@) =~= Map::new(
                |a: Seq<u8>| written.dom().contains(a) || map_of(d.take(0)).dom().contains(a),
                |a: Seq<u8>| if written.dom().contains(a) { written[a] } else { None },
            ));
        }
        let mut j: usize = 0;
        while j < self.deleted.len()
            invariant
                self.wf(),
                j <= d.len(),
                d == self.deleted.entries(),
                written == self.written_before(self.dirty@.len() as int),
                changes_of(changes@) == Map::new(
                    |a: Seq<u8>| written.dom().contains(a) || map_of(d.take(j as int)).dom().contains(a),
                    |a: Seq<u8>| if written.dom().contains(a) { written[a] } else { None },
                ),
            decreases d.len() - j,
        {
            let ghost c0 = changes@;
            let (a, _) = self.deleted.entry(j);
            proof {
                assert(d.take(j + 1).drop_last() =~= d.take(j as int));
                assert(map_of(d.take(j + 1)) == map_of(d.take(j as int)).insert(a@, d[j as int].1));
                use_type_invariant(&self.deleted);
                self.deleted.lemma_wf();
                crate::ordered::lemma_map_of_index(d, j as int);
                assert(self.deleted@.dom().contains(a@));
                assert(!self.positions@.dom().contains(a@));
                assert(!written.dom().contains(a@));
            }
            changes.set(copy_bytes(a.as_slice()), None);
            proof {
                assert(changes@ == c0.insert(a@, None::<Vec<u64>>));
                lemma_changes_insert(c0, a@, None::<Vec<u64>>);
                assert(changes_of(changes@) =~= Map::new(
                    |b: Seq<u8>| written.dom().contains(b) || map_of(d.take(j + 1)).dom().contains(b),
                    |b: Seq<u8>| if written.dom().contains(b) { written[b] } else { None },
                ));
            }
            j = j + 1;
        }
        proof {
            assert(d.take(j as int) =~= d);
            assert(changes_of(changes@) =~= self.pending());
        }
        let ghost entries = changes.entries();
        let ghost s = entries.map_values(|e: (Seq<u8>, Option<Vec<u64>>)| change_view(e));
        proof {
            reveal_strlit("bbg/shard-batch/v1\0");
        }
        let mut bytes = copy_bytes("bbg/shard-batch/v1\0".as_bytes());
        push_le64(&mut bytes, changes.len() as u64);
        let ghost start = bytes@;
        let mut k: usize = 0;
        while k < changes.len()
            invariant
                k <= entries.len(),
                entries == changes.entries(),
                s == entries.map_values(|e: (Seq<u8>, Option<Vec<u64>>)| change_view(e)),
                bytes@ == start + change_records(s.take(k as int)),
            decreases entries.len() - k,
        {
            let (a, v) = changes.entry(k);
            append_bytes(&mut bytes, a.as_slice());
            match v {
                Some(values) => {
                    bytes.push(1u8);
                    push_le64(&mut bytes, values.len() as u64);
                    let encoded = serialize_field(values.as_slice());
                    append_bytes(&mut bytes, encoded.as_slice());
                },
                None => {
                    bytes.push(0u8);
                },
            }
            proof {
                assert(s.take(k + 1).drop_last() =~= s.take(k as int));
                assert(s.take(k + 1).last() == change_view(entries[k as int]));
                assert(bytes@ =~= start + change_records(s.take(k + 1)));
            }
            k = k + 1;
        }
        proof {
            assert(s.take(k as int) =~= s);
            use_type_invariant(&changes);
            assert(sorted(s)) by {
                assert forall|x: int, y: int| 0 <= x < y < s.len() implies crate::bytes::lex_lt(
                    #[trigger] s[x].0,
                    #[trigger] s[y].0,
                ) by {
                    assert(s[x].0 == entries[x].0 && s[y].0 == entries[y].0);
                }
            }
            lemma_map_of_changes(entries);
            assert(map_of(s) == changes_of(changes@));
            assert(bytes@ == shard_batch_bytes(s));
        }
        hemera_hash(bytes.as_slice())
    }
}

} // verus!
