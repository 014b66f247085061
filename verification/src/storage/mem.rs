//! Shards held in memory: coalesced pending changes, a value for every
//! written entry, and bounded range reads.
use crate::ordered::{map_of, sorted};
use crate::storage::access::{
    Durability, FIELD_MODULUS, ScanLimits, ShardEntry, StorageError, StorageResult, check_dimension,
    check_read_limit, copy_value, entries_view, page_of, page_view,
};
use crate::storage::buffer::{
    DirtyEntry, WriteBuffer, cache_items, copy_values, delete_outcome, dimension_rows, entry_key,
    put_outcome, shard_batch_bytes,
};
use crate::storage::disk::unit_of;
use crate::storage::dim;
use crate::storage::shard::shard_view;
use crate::hash::hemera_digest;
use vstd::prelude::*;

verus! {

pub struct MemStore {
    state: WriteBuffer,
}

impl MemStore {
    /// Pending changes and the values of all entries.
    pub closed spec fn buffer(&self) -> WriteBuffer {
        self.state
    }

    /// A store in memory never has a commit whose outcome is unknown.
    pub open spec fn wf(&self) -> bool {
        self.buffer().wf() && self.buffer().unknown_view() is None
    }

    /// What a read of (`dimension`, `key`) yields: the entry's value within
    /// the element budget.
    pub open spec fn read_spec(&self, dimension: u8, key: Seq<u8>, max_elements: nat) -> Result<
        Option<Seq<u64>>,
        StorageError,
    > {
        let a = entry_key(dimension, key);
        let c = self.buffer().cache_view();
        if dimension > dim::EPHEMERAL {
            Err(StorageError::InvalidDimension(dimension))
        } else if max_elements > crate::storage::access::MAX_VALUE_ELEMENTS {
            Err(StorageError::Limit("read element count"))
        } else if !c.dom().contains(a) {
            Ok(None)
        } else if c[a].len() > max_elements {
            Err(StorageError::Limit("value exceeds read budget"))
        } else {
            Ok(Some(c[a]))
        }
    }

    pub fn new() -> (s: Self)
        ensures
            s.wf(),
            s.buffer().pending() == Map::<Seq<u8>, Option<Seq<u64>>>::empty(),
            s.buffer().dirty_view() == Seq::<(u8, [u8; 32], Seq<u64>)>::empty(),
            s.buffer().cache_view() == Map::<Seq<u8>, Seq<u64>>::empty(),
    {
        MemStore { state: WriteBuffer::new() }
    }

    /// The value of an entry.
    pub fn get(&self, dimension: u8, key: &[u8; 32]) -> (r: Option<&[u64]>)
        ensures
            match r {
                Some(v) => self.buffer().cache_view().dom().contains(entry_key(dimension, key@)) && v@
                    == self.buffer().cache_view()[entry_key(dimension, key@)],
                None => !self.buffer().cache_view().dom().contains(entry_key(dimension, key@)),
            },
    {
        match self.state.cached(dimension, key) {
            Some(v) => Some(v.as_slice()),
            None => None,
        }
    }

    /// Write `value` at (`dimension`, `key`), pending for the next commit
    /// unless the dimension is local-only.
    pub fn put(&mut self, dimension: u8, key: [u8; 32], value: Vec<u64>) -> (r: StorageResult<()>)
        requires
            old(self).wf(),
            forall|i: int| 0 <= i < value@.len() ==> value@[i] < FIELD_MODULUS,
        ensures
            final(self).wf(),
            r is Err ==> *final(self) == *old(self),
            put_outcome(old(self).buffer(), final(self).buffer(), dimension, key, value@, r),
    {
        self.state.put(dimension, key, value)
    }

    /// The pending written entries in write order.
    pub fn dirty_entries(&self) -> (s: &[DirtyEntry])
        ensures
            s@.map_values(|e: DirtyEntry| (e.0, e.1, e.2@)) == self.buffer().dirty_view(),
    {
        self.state.dirty_entries()
    }

    /// Whether anything awaits a commit.
    pub fn has_pending(&self) -> (r: bool)
        requires
            self.wf(),
        ensures
            r == (self.buffer().pending_keys() > 0),
    {
        self.state.has_pending()
    }

    /// Shards in memory do not survive the process.
    pub fn durability(&self) -> (d: Durability)
        ensures
            d == Durability::Memory,
    {
        Durability::Memory
    }

    /// A store in memory keeps no commit marker.
    pub fn last_commit(&self) -> (r: StorageResult<Option<[u8; 32]>>)
        ensures
            r == Ok::<Option<[u8; 32]>, StorageError>(None),
    {
        Ok(None)
    }

    /// A store in memory is never frozen.
    pub fn is_poisoned(&self) -> (r: bool)
        ensures
            !r,
    {
        false
    }

    /// Close the pending batch and return its identity; the values stay.
    pub fn commit(&mut self) -> (r: StorageResult<[u8; 32]>)
        requires
            old(self).wf(),
        ensures
            final(self).wf(),
            r matches Ok(id) && exists|s: Seq<(Seq<u8>, Option<Seq<u64>>)>|
                sorted(s) && map_of(s) == old(self).buffer().pending() && id@ == hemera_digest(
                    #[trigger] shard_batch_bytes(s),
                ),
            final(self).buffer().pending() == Map::<Seq<u8>, Option<Seq<u64>>>::empty(),
            final(self).buffer().dirty_view() == Seq::<(u8, [u8; 32], Seq<u64>)>::empty(),
            final(self).buffer().cache_view() == old(self).buffer().cache_view(),
    {
        let id = self.state.change_id();
        self.state.clear_pending();
        Ok(id)
    }

    /// Read (`dimension`, `key`) within an element budget.
    pub fn read(&self, dimension: u8, key: &[u8; 32], max_elements: usize) -> (r: StorageResult<Option<Vec<u64>>>)
        ensures
            shard_view(r) == self.read_spec(dimension, key@, max_elements as nat),
    {
        check_dimension(dimension)?;
        check_read_limit(max_elements)?;
        match self.get(dimension, key) {
            Some(v) => {
                let copy = copy_value(v, max_elements)?;
                Ok(Some(copy))
            },
            None => Ok(None),
        }
    }

    /// Queue an entry's current value for the next commit again; a no-op for
    /// the local-only dimension and for absent entries.
    pub fn mark_dirty(&mut self, dimension: u8, key: [u8; 32]) -> (r: StorageResult<()>)
        requires
            old(self).wf(),
        ensures
            final(self).wf(),
            r is Err ==> *final(self) == *old(self),
            dimension > dim::EPHEMERAL ==> r == Err::<(), StorageError>(StorageError::InvalidDimension(dimension)),
            dimension == dim::EPHEMERAL || (dimension < dim::EPHEMERAL && !old(self).buffer().cache_view().dom().contains(
                entry_key(dimension, key@),
            )) ==> r is Ok && *final(self) == *old(self),
            dimension < dim::EPHEMERAL && old(self).buffer().cache_view().dom().contains(entry_key(dimension, key@))
                ==> put_outcome(
                old(self).buffer(),
                final(self).buffer(),
                dimension,
                key,
                old(self).buffer().cache_view()[entry_key(dimension, key@)],
                r,
            ),
    {
        check_dimension(dimension)?;
        if dimension != dim::EPHEMERAL {
            proof {
                self.state.lemma_cache_storable();
            }
            let value = match self.state.cached(dimension, &key) {
                Some(v) => copy_values(v.as_slice()),
                None => {
                    return Ok(());
                },
            };
            self.state.put(dimension, key, value)?;
        }
        Ok(())
    }

    /// Delete (`dimension`, `key`), returning the value it had.
    pub fn remove(&mut self, dimension: u8, key: &[u8; 32]) -> (r: StorageResult<Option<Vec<u64>>>)
        requires
            old(self).wf(),
        ensures
            final(self).wf(),
            r is Err ==> *final(self) == *old(self),
            delete_outcome(old(self).buffer(), final(self).buffer(), dimension, *key, unit_of(r)),
            r is Ok ==> shard_view(r) == Ok::<Option<Seq<u64>>, StorageError>(
                if old(self).buffer().cache_view().dom().contains(entry_key(dimension, key@)) {
                    Some(old(self).buffer().cache_view()[entry_key(dimension, key@)])
                } else {
                    None
                },
            ),
    {
        let value = match self.state.cached(dimension, key) {
            Some(v) => Some(copy_values(v.as_slice())),
            None => None,
        };
        self.state.delete(dimension, key)?;
        Ok(value)
    }

    /// The entries of `dimension` after `after`, as a bounded page.
    pub fn scan(&self, dimension: u8, after: Option<[u8; 32]>, limits: ScanLimits) -> (r: StorageResult<Vec<ShardEntry>>)
        ensures
            dimension > dim::EPHEMERAL ==> r == Err::<Vec<ShardEntry>, StorageError>(StorageError::InvalidDimension(dimension)),
            dimension <= dim::EPHEMERAL && !limits.valid() ==> r == Err::<Vec<ShardEntry>, StorageError>(limits.validate_spec()),
            dimension <= dim::EPHEMERAL && limits.valid() ==> page_view(r) == page_of(
                cache_items(
                    self.buffer().cache_rows(),
                    dimension,
                    match after {
                        Some(c) => Some(c@),
                        None => None,
                    },
                    limits.max_elements as nat,
                ),
                limits.max_entries as nat,
                limits.max_elements as nat,
                0,
            ),
            sorted(self.buffer().cache_rows()),
            map_of(self.buffer().cache_rows()) == self.buffer().cache_view(),
    {
        self.state.scan_cache(dimension, after, limits)
    }

    /// The entries of `dimension` in key order.
    pub fn iter(&self, dimension: u8) -> (s: Vec<ShardEntry>)
        ensures
            entries_view(s@) == dimension_rows(self.buffer().cache_rows(), dimension),
    {
        self.state.cached_in(dimension)
    }
}

} // verus!
