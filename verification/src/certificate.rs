//! Public-table authentication data: the dimension tables a certificate
//! reveals, and the context that binds a query to one of them.
use vstd::prelude::*;

verus! {

pub const CERTIFICATE_VERSION: u32 = 2;

pub const MAX_FIELDS: usize = 1_048_576;

pub const QUERY_VERSION: u32 = 3;

pub const MAX_QUERY_FIELDS: usize = 4096;

/// One revealed dimension: its namespace and its complete field table.
#[derive(Clone, Debug, PartialEq, Eq)]
pub struct DimensionTable {
    pub namespace: u64,
    pub fields: Vec<u64>,
}

/// Complete public tables of the consumed dimensions, with the root leaves
/// (dimensions 0 to 10, A, N and statistics, in root-compression order).
#[derive(Clone, Debug, PartialEq, Eq)]
pub struct StateCertificate {
    pub version: u32,
    pub lens_version: u32,
    pub leaves: [[u64; 4]; 14],
    pub dimensions: Vec<DimensionTable>,
}

/// The context of an authenticated query: one certified dimension and a cell.
#[derive(Clone, Debug, PartialEq, Eq)]
pub struct QueryContext {
    pub version: u32,
    pub certificate: StateCertificate,
    pub namespace: u64,
    pub index: u64,
}

} // verus!
