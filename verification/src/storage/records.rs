//! Closed native record spaces sharing the physical transaction.
use crate::storage::access::{StorageError, StorageResult};
use crate::storage::database::{
    ByteLimits, Database, MAX_KEY_BYTES, RawEntry, Transaction, engine_scan, lookup, read_view,
    same_error, scan_view, stage_result,
};
use crate::storage::table::{Table, address, table_code};
use vstd::prelude::*;

verus! {

#[derive(Debug, Clone, Copy, PartialEq, Eq, Structural)]
pub enum RecordDomain {
    NativeState,
    NativeHistory,
    NativeRequests,
    NativeMetadata,
    NativeBalances,
    NativeBlocks,
    NativeExport,
}

/// Every record domain, in declaration order.
pub const RECORD_DOMAINS: [RecordDomain; 7] = [
    RecordDomain::NativeState,
    RecordDomain::NativeHistory,
    RecordDomain::NativeRequests,
    RecordDomain::NativeMetadata,
    RecordDomain::NativeBalances,
    RecordDomain::NativeBlocks,
    RecordDomain::NativeExport,
];

impl RecordDomain {
    pub fn name(self) -> (r: &'static str)
        ensures
            r == crate::storage::table::table_name(crate::storage::table::Table::Native(self)),
    {
        match self {
            RecordDomain::NativeState => "native_state_v1",
            RecordDomain::NativeHistory => "native_history_v1",
            RecordDomain::NativeRequests => "native_requests_v1",
            RecordDomain::NativeMetadata => "native_metadata_v1",
            RecordDomain::NativeBalances => "native_balances_v1",
            RecordDomain::NativeBlocks => "native_blocks_v1",
            RecordDomain::NativeExport => "native_export_v1",
        }
    }
}

#[derive(Clone, Copy)]
pub struct RecordLimits {
    pub max_entries: usize,
    pub max_bytes: usize,
}

pub open spec fn byte_limits(limits: RecordLimits) -> ByteLimits {
    ByteLimits { max_entries: limits.max_entries, max_bytes: limits.max_bytes }
}

impl Database {
    pub fn read_record(&self, domain: RecordDomain, key: &[u8], max: usize) -> (r: StorageResult<
        Option<Vec<u8>>,
    >)
        ensures
            self.failure() matches Some(f) ==> (r matches Err(e) && same_error(e, f)),
            self.failure() is None ==> read_view(r) == lookup(
                self.contents(),
                Map::empty(),
                Table::Native(domain),
                key@,
                max as nat,
            ),
    {
        self.read(Table::Native(domain), key, max)
    }

    pub fn scan_records(
        &self,
        domain: RecordDomain,
        after: Option<&[u8]>,
        prefix: &[u8],
        limits: RecordLimits,
    ) -> (r: StorageResult<Vec<RawEntry>>)
        ensures
            self.failure() matches Some(f) ==> (r matches Err(e) && same_error(e, f)),
            self.failure() is None && !byte_limits(limits).valid() ==> r is Err,
            self.failure() is None && byte_limits(limits).valid() && ((after matches Some(a)
                && a@.len() > MAX_KEY_BYTES) || prefix@.len() > MAX_KEY_BYTES) ==> r is Err,
            self.failure() is None && byte_limits(limits).valid() && !((after matches Some(a)
                && a@.len() > MAX_KEY_BYTES) || prefix@.len() > MAX_KEY_BYTES) ==> scan_view(r)
                == engine_scan(
                self.entries(),
                Table::Native(domain),
                match after {
                    Some(a) => Some(a@),
                    None => None,
                },
                prefix@,
                byte_limits(limits),
            ),
    {
        self.scan(
            Table::Native(domain),
            after,
            prefix,
            ByteLimits { max_entries: limits.max_entries, max_bytes: limits.max_bytes },
        )
    }
}

impl<'a> Transaction<'a> {
    pub fn read_record(&self, domain: RecordDomain, key: &[u8], max: usize) -> (r: StorageResult<
        Option<Vec<u8>>,
    >)
        ensures
            read_view(r) == lookup(self.committed(), self.staged(), Table::Native(domain), key@, max as nat),
    {
        self.get(Table::Native(domain), key, max)
    }

    pub fn put_record(&mut self, domain: RecordDomain, key: &[u8], value: &[u8]) -> (r: StorageResult<()>)
        requires
            old(self).wf(),
        ensures
            final(self).wf(),
            final(self).committed() == old(self).committed(),
            final(self).committed_entries() == old(self).committed_entries(),
            r == stage_result(old(self).staged(), old(self).staged_bytes(), Table::Native(domain), key@, Some(value@)),
            r is Ok ==> final(self).staged() == old(self).staged().insert(
                address(Table::Native(domain), key@),
                Some(value@),
            ),
            r is Err ==> final(self).staged() == old(self).staged(),
            key@.len() > MAX_KEY_BYTES ==> r is Err,
    {
        self.put(Table::Native(domain), key, value)
    }

    pub fn remove_record(&mut self, domain: RecordDomain, key: &[u8]) -> (r: StorageResult<()>)
        requires
            old(self).wf(),
        ensures
            final(self).wf(),
            final(self).committed() == old(self).committed(),
            final(self).committed_entries() == old(self).committed_entries(),
            r == stage_result(old(self).staged(), old(self).staged_bytes(), Table::Native(domain), key@, None),
            r is Ok ==> final(self).staged() == old(self).staged().insert(
                address(Table::Native(domain), key@),
                None,
            ),
            r is Err ==> final(self).staged() == old(self).staged(),
            key@.len() > MAX_KEY_BYTES ==> r is Err,
    {
        self.remove(Table::Native(domain), key)
    }

    pub fn scan_records(
        &self,
        domain: RecordDomain,
        after: Option<&[u8]>,
        prefix: &[u8],
        limits: RecordLimits,
    ) -> (r: StorageResult<Vec<RawEntry>>)
        requires
            self.wf(),
        ensures
            !byte_limits(limits).valid() ==> r is Err,
            byte_limits(limits).valid() && !((after matches Some(a) && a@.len() > MAX_KEY_BYTES)
                || prefix@.len() > MAX_KEY_BYTES) && !(exists|k: Seq<u8>| #[trigger]
                self.staged().dom().contains(k) && k.len() >= 1 && k[0] == table_code(
                Table::Native(domain),
            )) ==> scan_view(r) == engine_scan(
                self.committed_entries(),
                Table::Native(domain),
                match after {
                    Some(a) => Some(a@),
                    None => None,
                },
                prefix@,
                byte_limits(limits),
            ),
    {
        self.scan(
            Table::Native(domain),
            after,
            prefix,
            ByteLimits { max_entries: limits.max_entries, max_bytes: limits.max_bytes },
        )
    }
}

} // verus!
