//! The shard view over the shared owner: pending writes and a read cache in
//! front of the committed shard tables.
use crate::ordered::{map_of, sorted};
use crate::storage::access::{
    Durability, FIELD_MODULUS, MAX_VALUE_ELEMENTS, ScanItem, ScanLimits, ShardEntry, StorageError,
    StorageResult, check_dimension, check_read_limit, collect_page, copy_value, deserialize_field,
    field_bytes, field_decode, items_view, page_of, page_view,
};
use crate::storage::buffer::{
    DirtyEntry, WriteBuffer, cache_items, delete_outcome, entry_key, lemma_shard_changes_insert, local_only,
    put_outcome, shard_batch_bytes, shard_changes,
};
use crate::storage::database::{
    ByteLimits, Database, RawEntry, apply_changes, change_id_spec, changes_view, decode_marker,
    engine_scan, law_committed_removal, raw_view, same_error, scan_view, staged_of, with_markers,
};
use crate::storage::dim;
use crate::storage::shard::{load_spec, shard_view};
use crate::storage::table::{Table, address};
use crate::hash::hemera_digest;
use crate::bytes::read_array32;
use vstd::prelude::*;
use vstd::string::StringSliceAdditionalSpecFns;

verus! {

/// The marker of the last shard commit, as a read of the committed rows finds it.
pub open spec fn last_commit_spec(contents: Map<Seq<u8>, Seq<u8>>) -> Result<Option<Seq<u8>>, StorageError> {
    let a = address(Table::Metadata, "last_commit".spec_bytes());
    if !contents.dom().contains(a) {
        Ok(None)
    } else if contents[a].len() > 32 {
        Err(StorageError::Limit("database value exceeds read budget"))
    } else if contents[a].len() != 32 {
        Err(StorageError::Corrupt("commit marker length"))
    } else {
        Ok(Some(contents[a]))
    }
}

pub open spec fn marker_view(r: StorageResult<Option<[u8; 32]>>) -> Result<Option<Seq<u8>>, StorageError> {
    match r {
        Ok(Some(m)) => Ok(Some(m@)),
        Ok(None) => Ok(None),
        Err(e) => Err(e),
    }
}

/// The item that a committed shard row contributes to a scan: a 32-byte key
/// and its decoded value within the element budget.
pub open spec fn disk_item(row: (Seq<u8>, Seq<u8>), max_elements: nat) -> Result<(Seq<u8>, Seq<u64>), StorageError> {
    if row.0.len() != 32 {
        Err(StorageError::Corrupt("shard key length"))
    } else {
        match field_decode(row.1, max_elements) {
            Ok(v) => Ok((row.0, v)),
            Err(e) => Err(e),
        }
    }
}

pub open spec fn disk_items(rows: Seq<(Seq<u8>, Seq<u8>)>, max_elements: nat) -> Seq<
    Result<(Seq<u8>, Seq<u64>), StorageError>,
> {
    rows.map_values(|row: (Seq<u8>, Seq<u8>)| disk_item(row, max_elements))
}

/// The raw page bounds that a shard scan asks of the owner.
pub open spec fn shard_byte_limits(limits: ScanLimits) -> ByteLimits {
    ByteLimits { max_entries: limits.max_entries, max_bytes: (limits.max_elements * 8 + limits.max_entries * 32) as usize }
}

pub open spec fn unit_of<T>(r: StorageResult<T>) -> StorageResult<()> {
    match r {
        Ok(_) => Ok(()),
        Err(e) => Err(e),
    }
}

pub struct DiskStore {
    db: Database,
    pending: WriteBuffer,
}

impl DiskStore {
    /// The owner whose shard tables this view reads and commits to.
    pub closed spec fn database_view(&self) -> Database {
        self.db
    }

    /// The pending writes and the read cache.
    pub closed spec fn buffer(&self) -> WriteBuffer {
        self.pending
    }

    pub open spec fn wf(&self) -> bool {
        self.buffer().wf()
    }

    /// The failure that freezes this view: a commit of its own whose outcome
    /// is unknown, else the owner's.
    pub open spec fn frozen(&self) -> Option<StorageError> {
        match self.buffer().unknown_view() {
            Some(e) => Some(e),
            None => self.database_view().failure(),
        }
    }

    /// What a read of (`dimension`, `key`) yields while the view is not frozen:
    /// a pending deletion reads as absent, a cached value as itself, and
    /// anything else as the committed row.
    pub open spec fn read_spec(&self, dimension: u8, key: Seq<u8>, max_elements: nat) -> Result<
        Option<Seq<u64>>,
        StorageError,
    > {
        let a = entry_key(dimension, key);
        let p = self.buffer().pending();
        let c = self.buffer().cache_view();
        if dimension > dim::EPHEMERAL {
            Err(StorageError::InvalidDimension(dimension))
        } else if max_elements > MAX_VALUE_ELEMENTS {
            Err(StorageError::Limit("read element count"))
        } else if p.dom().contains(a) && p[a] is None {
            Ok(None)
        } else if c.dom().contains(a) {
            if c[a].len() > max_elements {
                Err(StorageError::Limit("value exceeds read budget"))
            } else {
                Ok(Some(c[a]))
            }
        } else {
            load_spec(self.database_view().contents(), dimension, key, max_elements)
        }
    }

    /// What a scan yields while the view is not frozen.
    pub open spec fn scan_spec(&self, dimension: u8, after: Option<Seq<u8>>, limits: ScanLimits) -> Result<
        Seq<(Seq<u8>, Seq<u64>)>,
        StorageError,
    > {
        if dimension > dim::EPHEMERAL {
            Err(StorageError::InvalidDimension(dimension))
        } else if !limits.valid() {
            Err(limits.validate_spec())
        } else if self.buffer().pending_keys() > 0 {
            Err(StorageError::PendingWrites)
        } else if dimension == dim::EPHEMERAL {
            page_of(
                cache_items(self.buffer().cache_rows(), dimension, after, limits.max_elements as nat),
                limits.max_entries as nat,
                limits.max_elements as nat,
                0,
            )
        } else {
            match engine_scan(
                self.database_view().entries(),
                Table::Shard(dimension),
                after,
                Seq::empty(),
                shard_byte_limits(limits),
            ) {
                Err(e) => Err(e),
                Ok(rows) => page_of(
                    disk_items(rows, limits.max_elements as nat),
                    limits.max_entries as nat,
                    limits.max_elements as nat,
                    0,
                ),
            }
        }
    }

    /// A view with nothing pending over `db`.
    pub(crate) fn new(db: Database) -> (s: Self)
        ensures
            s.wf(),
            s.database_view() == db,
            s.buffer().pending() == Map::<Seq<u8>, Option<Seq<u64>>>::empty(),
            s.buffer().dirty_view() == Seq::<(u8, [u8; 32], Seq<u64>)>::empty(),
            s.buffer().cache_view() == Map::<Seq<u8>, Seq<u64>>::empty(),
            s.buffer().unknown_view() is None,
    {
        DiskStore { db, pending: WriteBuffer::new() }
    }

    /// The owner behind this view.
    pub fn database(&self) -> (db: &Database)
        ensures
            *db == self.database_view(),
    {
        &self.db
    }

    /// The owner behind this view, giving up the view.
    pub fn into_database(self) -> (db: Database)
        ensures
            db == self.database_view(),
    {
        self.db
    }

    fn ready(&self) -> (r: StorageResult<()>)
        ensures
            self.frozen() matches Some(e) ==> r matches Err(x) && same_error(x, e),
            self.frozen() is None ==> r is Ok,
    {
        self.pending.ready()?;
        self.db.ready()
    }

    /// Read a committed shard value, bypassing pending writes and the cache.
    pub fn load(&self, dimension: u8, key: &[u8; 32], limit: usize) -> (r: StorageResult<Option<Vec<u64>>>)
        ensures
            self.frozen() matches Some(e) ==> r matches Err(x) && same_error(x, e),
            self.frozen() is None ==> shard_view(r) == load_spec(
                self.database_view().contents(),
                dimension,
                key@,
                limit as nat,
            ),
    {
        self.ready()?;
        check_dimension(dimension)?;
        check_read_limit(limit)?;
        if dimension == dim::EPHEMERAL {
            return Ok(None);
        }
        let bytes = self.db.read(Table::Shard(dimension), key, limit * 8)?;
        match bytes {
            Some(b) => {
                let values = deserialize_field(b.as_slice(), limit)?;
                Ok(Some(values))
            },
            None => Ok(None),
        }
    }

    /// The cached value of an entry; nothing while the view is frozen.
    pub fn get(&self, dimension: u8, key: &[u8; 32]) -> (r: Option<&[u64]>)
        ensures
            self.frozen() is Some ==> r is None,
            self.frozen() is None ==> match r {
                Some(v) => self.buffer().cache_view().dom().contains(entry_key(dimension, key@)) && v@
                    == self.buffer().cache_view()[entry_key(dimension, key@)],
                None => !self.buffer().cache_view().dom().contains(entry_key(dimension, key@)),
            },
    {
        if self.is_poisoned() {
            return None;
        }
        match self.pending.cached(dimension, key) {
            Some(v) => Some(v.as_slice()),
            None => None,
        }
    }

    /// Write `value` at (`dimension`, `key`) for the next commit.
    pub fn put(&mut self, dimension: u8, key: [u8; 32], value: Vec<u64>) -> (r: StorageResult<()>)
        requires
            old(self).wf(),
            forall|i: int| 0 <= i < value@.len() ==> value@[i] < FIELD_MODULUS,
        ensures
            final(self).wf(),
            final(self).database_view() == old(self).database_view(),
            final(self).buffer().unknown_view() == old(self).buffer().unknown_view(),
            r is Err ==> *final(self) == *old(self),
            old(self).frozen() matches Some(e) ==> r matches Err(x) && same_error(x, e),
            old(self).frozen() is None ==> put_outcome(
                old(self).buffer(),
                final(self).buffer(),
                dimension,
                key,
                value@,
                r,
            ),
    {
        self.ready()?;
        self.pending.put(dimension, key, value)
    }

    /// The pending written entries in write order.
    pub fn dirty_entries(&self) -> (s: &[DirtyEntry])
        ensures
            s@.map_values(|e: DirtyEntry| (e.0, e.1, e.2@)) == self.buffer().dirty_view(),
    {
        self.pending.dirty_entries()
    }

    /// Shards behind this view survive the process.
    pub fn durability(&self) -> (d: Durability)
        ensures
            d == Durability::Disk,
    {
        Durability::Disk
    }

    /// Whether a commit's outcome is unknown.
    pub fn is_poisoned(&self) -> (r: bool)
        ensures
            r == self.frozen() is Some,
    {
        self.pending.unknown_is_some() || self.db.is_poisoned()
    }

    /// Whether anything awaits a commit.
    pub fn has_pending(&self) -> (r: bool)
        requires
            self.wf(),
        ensures
            r == (self.buffer().pending_keys() > 0),
    {
        self.pending.has_pending()
    }

    /// The marker of the last shard commit.
    pub fn last_commit(&self) -> (r: StorageResult<Option<[u8; 32]>>)
        ensures
            self.frozen() matches Some(e) ==> r matches Err(x) && same_error(x, e),
            self.frozen() is None ==> marker_view(r) == last_commit_spec(self.database_view().contents()),
    {
        proof {
            reveal_strlit("last_commit");
            vstd::string::is_ascii_spec_bytes("last_commit");
        }
        self.ready()?;
        let bytes = self.db.read(Table::Metadata, "last_commit".as_bytes(), 32)?;
        match bytes {
            Some(b) => Ok(Some(decode_marker(b.as_slice())?)),
            None => Ok(None),
        }
    }

    /// Publish the pending writes in one transaction of the owner and return
    /// its identity. With nothing pending, the last commit's marker, or the
    /// identity of the empty batch where there is none.
    pub fn commit(&mut self) -> (r: StorageResult<[u8; 32]>)
        requires
            old(self).wf(),
        ensures
            final(self).wf(),
            old(self).frozen() matches Some(e) ==> (r matches Err(x) && same_error(x, e) && *final(self)
                == *old(self)),
            old(self).frozen() is None && old(self).buffer().pending_keys() == 0 ==> *final(self) == *old(self)
                && match last_commit_spec(old(self).database_view().contents()) {
                Err(e) => r == Err::<[u8; 32], StorageError>(e),
                Ok(Some(m)) => (r matches Ok(id) && id@ == m),
                Ok(None) => (r matches Ok(id) && id@ == hemera_digest(shard_batch_bytes(Seq::empty()))),
            },
            old(self).frozen() is None && old(self).buffer().pending_keys() > 0 ==> (r matches Ok(id) && {
                &&& final(self).database_view().contents() == apply_changes(
                    old(self).database_view().contents(),
                    with_markers(shard_changes(old(self).buffer().pending()), id@),
                )
                &&& exists|s: Seq<(Seq<u8>, Option<Vec<u8>>)>|
                    sorted(s) && staged_of(map_of(s)) == shard_changes(old(self).buffer().pending()) && id@
                        == #[trigger] change_id_spec(changes_view(s))
                &&& final(self).database_view().failure() is None
                &&& final(self).buffer().pending() == Map::<Seq<u8>, Option<Seq<u64>>>::empty()
                &&& final(self).buffer().cache_view() == local_only(old(self).buffer().cache_view())
                &&& final(self).buffer().unknown_view() is None
            }),
    {
        self.ready()?;
        if !self.pending.has_pending() {
            let last = self.last_commit()?;
            return match last {
                Some(id) => Ok(id),
                None => {
                    let id = self.pending.change_id();
                    proof {
                        crate::storage::buffer::lemma_empty_batch(id@);
                    }
                    Ok(id)
                },
            };
        }
        let changes = {
            let mut tx = self.db.begin()?;
            self.pending.stage_changes(&mut tx)?;
            tx.into_changes()
        };
        let ghost staged = shard_changes(self.pending.pending());
        proof {
            self.pending.lemma_pending_nonempty();
            assert(changes.entries().len() > 0);
            use_type_invariant(&changes);
        }
        let id = self.db.commit(changes);
        match id {
            Some(id) => {
                self.pending.finish();
                Ok(id)
            },
            None => Err(StorageError::Corrupt("missing shard commit identity")),
        }
    }

    /// Read (`dimension`, `key`) through pending writes and the cache, within
    /// an element budget.
    pub fn read(&self, dimension: u8, key: &[u8; 32], max_elements: usize) -> (r: StorageResult<Option<Vec<u64>>>)
        requires
            self.wf(),
        ensures
            self.frozen() matches Some(e) ==> r matches Err(x) && same_error(x, e),
            self.frozen() is None ==> shard_view(r) == self.read_spec(dimension, key@, max_elements as nat),
    {
        self.ready()?;
        check_dimension(dimension)?;
        check_read_limit(max_elements)?;
        if self.pending.is_deleted(dimension, key) {
            return Ok(None);
        }
        match self.pending.cached(dimension, key) {
            Some(value) => {
                let copy = copy_value(value.as_slice(), max_elements)?;
                Ok(Some(copy))
            },
            None => self.load(dimension, key, max_elements),
        }
    }

    /// Committed rows of `dimension` after `after`, as a bounded page;
    /// refused while writes are pending.
    pub fn scan(&self, dimension: u8, after: Option<[u8; 32]>, limits: ScanLimits) -> (r: StorageResult<Vec<ShardEntry>>)
        requires
            self.wf(),
        ensures
            self.frozen() matches Some(e) ==> r matches Err(x) && same_error(x, e),
            self.frozen() is None ==> page_view(r) == self.scan_spec(
                dimension,
                match after {
                    Some(c) => Some(c@),
                    None => None,
                },
                limits,
            ),
    {
        self.ready()?;
        check_dimension(dimension)?;
        limits.validate()?;
        self.pending.clean()?;
        if dimension == dim::EPHEMERAL {
            return self.pending.scan_cache(dimension, after, limits);
        }
        let byte_limits = ByteLimits {
            max_entries: limits.max_entries,
            max_bytes: limits.max_elements * 8 + limits.max_entries * 32,
        };
        let rows = match &after {
            Some(c) => self.db.scan(Table::Shard(dimension), Some(c.as_slice()), &[], byte_limits),
            None => self.db.scan(Table::Shard(dimension), None, &[], byte_limits),
        };
        let rows = rows?;
        let ghost rv = raw_view(rows@);
        let mut items: Vec<ScanItem> = Vec::new();
        let mut i: usize = 0;
        while i < rows.len()
            invariant
                i <= rows@.len(),
                rv == raw_view(rows@),
                limits.valid(),
                items_view(items@) == disk_items(rv.take(i as int), limits.max_elements as nat),
            decreases rows@.len() - i,
        {
            let row = &rows[i];
            let item: ScanItem = if row.0.len() != 32 {
                Err(StorageError::Corrupt("shard key length"))
            } else {
                let key = read_array32(row.0.as_slice(), 0);
                match deserialize_field(row.1.as_slice(), limits.max_elements) {
                    Ok(v) => Ok((key, v)),
                    Err(e) => Err(e),
                }
            };
            let ghost before = items_view(items@);
            proof {
                assert(rv[i as int] == (row.0@, row.1@));
                if row.0@.len() == 32 {
                    assert(row.0@.subrange(0, 32) =~= row.0@);
                }
                assert(crate::storage::access::item_view(item) == disk_item(rv[i as int], limits.max_elements as nat));
                assert(rv.take(i + 1) =~= rv.take(i as int).push(rv[i as int]));
                assert(disk_items(rv.take(i + 1), limits.max_elements as nat) =~= disk_items(
                    rv.take(i as int),
                    limits.max_elements as nat,
                ).push(disk_item(rv[i as int], limits.max_elements as nat)));
            }
            items.push(item);
            proof {
                assert(items_view(items@) =~= before.push(crate::storage::access::item_view(item)));
            }
            i = i + 1;
        }
        proof {
            assert(rv.take(i as int) =~= rv);
        }
        collect_page(items, limits)
    }

    /// Entries cannot be changed in place behind this view.
    pub fn get_mut(&mut self, dimension: u8, key: &[u8; 32]) -> (r: Option<&mut [u64]>)
        ensures
            r is None,
            *final(self) == *old(self),
    {
        None
    }

    /// Writes through this view are pending as soon as they are made: only
    /// the dimension is checked.
    pub fn mark_dirty(&mut self, dimension: u8, key: [u8; 32]) -> (r: StorageResult<()>)
        ensures
            *final(self) == *old(self),
            old(self).frozen() matches Some(e) ==> r matches Err(x) && same_error(x, e),
            old(self).frozen() is None && dimension <= dim::EPHEMERAL ==> r is Ok,
            old(self).frozen() is None && dimension > dim::EPHEMERAL ==> r == Err::<(), StorageError>(
                StorageError::InvalidDimension(dimension),
            ),
    {
        self.ready()?;
        check_dimension(dimension)
    }

    /// Delete (`dimension`, `key`) for the next commit, returning the value
    /// that a read found there.
    pub fn remove(&mut self, dimension: u8, key: &[u8; 32]) -> (r: StorageResult<Option<Vec<u64>>>)
        requires
            old(self).wf(),
        ensures
            final(self).wf(),
            final(self).database_view() == old(self).database_view(),
            r is Err ==> *final(self) == *old(self),
            old(self).frozen() matches Some(e) ==> r matches Err(x) && same_error(x, e),
            old(self).frozen() is None ==> match old(self).read_spec(dimension, key@, MAX_VALUE_ELEMENTS as nat) {
                Err(e) => r == Err::<Option<Vec<u64>>, StorageError>(e),
                Ok(v) => delete_outcome(old(self).buffer(), final(self).buffer(), dimension, *key, unit_of(r)) && (
                r is Ok ==> shard_view(r) == Ok::<Option<Seq<u64>>, StorageError>(v)),
            },
    {
        let value = self.read(dimension, key, MAX_VALUE_ELEMENTS)?;
        self.pending.delete(dimension, key)?;
        Ok(value)
    }

    /// The cached entries of `dimension` in key order; nothing while frozen.
    pub fn iter(&self, dimension: u8) -> (s: Vec<ShardEntry>)
        requires
            self.wf(),
        ensures
            self.frozen() is Some ==> s@.len() == 0,
            self.frozen() is None ==> crate::storage::access::entries_view(s@)
                == crate::storage::buffer::dimension_rows(self.buffer().cache_rows(), dimension),
    {
        if self.is_poisoned() {
            return Vec::new();
        }
        self.pending.cached_in(dimension)
    }
}

impl Database {
    /// The shard view over this owner, with nothing pending.
    pub fn shards(self) -> (s: DiskStore)
        ensures
            s.wf(),
            s.database_view() == self,
            s.buffer().pending() == Map::<Seq<u8>, Option<Seq<u64>>>::empty(),
            s.buffer().cache_view() == Map::<Seq<u8>, Seq<u64>>::empty(),
            s.buffer().unknown_view() is None,
    {
        DiskStore::new(self)
    }
}

/// A write through the view reads back through it, before any commit.
pub proof fn law_shard_write_reads_back(
    s0: DiskStore,
    s1: DiskStore,
    dimension: u8,
    key: [u8; 32],
    value: Seq<u64>,
    max_elements: nat,
)
    requires
        s0.wf(),
        put_outcome(s0.buffer(), s1.buffer(), dimension, key, value, Ok(())),
        s1.database_view() == s0.database_view(),
        value.len() <= max_elements <= MAX_VALUE_ELEMENTS,
    ensures
        s1.read_spec(dimension, key@, max_elements) == Ok::<Option<Seq<u64>>, StorageError>(Some(value)),
{
    s0.buffer().lemma_pending_facts();
}

/// After a commit, a read through the view returns what was pending: each
/// written value, and nothing where an entry was deleted.
pub proof fn law_shard_commit_reads_back(
    s0: DiskStore,
    s1: DiskStore,
    id: Seq<u8>,
    dimension: u8,
    key: [u8; 32],
    max_elements: nat,
)
    requires
        s0.wf(),
        s0.buffer().pending().dom().contains(entry_key(dimension, key@)),
        s1.database_view().contents() == apply_changes(
            s0.database_view().contents(),
            with_markers(shard_changes(s0.buffer().pending()), id),
        ),
        s1.buffer().pending() == Map::<Seq<u8>, Option<Seq<u64>>>::empty(),
        s1.buffer().cache_view() == local_only(s0.buffer().cache_view()),
        max_elements <= MAX_VALUE_ELEMENTS,
        s0.buffer().pending()[entry_key(dimension, key@)] matches Some(v) ==> v.len() <= max_elements,
    ensures
        s1.read_spec(dimension, key@, max_elements) == Ok::<Option<Seq<u64>>, StorageError>(
            s0.buffer().pending()[entry_key(dimension, key@)],
        ),
{
    let p = s0.buffer().pending();
    let a = entry_key(dimension, key@);
    s0.buffer().lemma_pending_facts();
    assert(a[0] == dimension);
    let t = Table::Shard(dimension);
    lemma_shard_changes_insert(p, dimension, key@, p[a]);
    assert(p.insert(a, p[a]) =~= p);
    let b = address(t, key@);
    let bytes = match p[a] {
        Some(v) => Some(field_bytes(v)),
        None => None,
    };
    assert(shard_changes(p).dom().contains(b) && shard_changes(p)[b] == bytes);
    let c1 = s1.database_view().contents();
    match p[a] {
        Some(v) => {
            crate::storage::access::lemma_field_bytes_len(v);
            crate::storage::access::lemma_field_roundtrip(v);
            crate::storage::database::law_committed_write_reads_back(
                s0.database_view().contents(),
                shard_changes(p),
                id,
                t,
                key@,
                field_bytes(v),
                max_elements * 8,
            );
            assert(field_bytes(v).len() / 8 == v.len()) by (nonlinear_arith)
                requires
                    field_bytes(v).len() == 8 * v.len(),
            ;
            assert(field_bytes(v).len() % 8 == 0) by (nonlinear_arith)
                requires
                    field_bytes(v).len() == 8 * v.len(),
            ;
        },
        None => {
            law_committed_removal(s0.database_view().contents(), shard_changes(p), id, t, key@, max_elements * 8);
        },
    }
    assert(!s1.buffer().cache_view().dom().contains(a));
}

} // verus!
