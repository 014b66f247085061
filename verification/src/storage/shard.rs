//! Shard values inside a transaction: field elements stored little-endian.
use crate::storage::access::{
    FIELD_MODULUS, MAX_VALUE_ELEMENTS, StorageError, StorageResult, check_dimension,
    check_read_limit, deserialize_field, field_bytes, field_decode, serialize_field, values_view,
};
use crate::storage::database::{MARKER_RESERVE, MAX_TRANSACTION_BYTES, MAX_TRANSACTION_KEYS, Transaction, lookup};
use crate::storage::dim;
use crate::storage::table::{Table, address};
use vstd::prelude::*;

verus! {

/// Durable transactions accept every dimension but the local-only one.
pub open spec fn disk_dimension_spec(dimension: u8) -> StorageResult<()> {
    if dimension > dim::EPHEMERAL {
        Err(StorageError::InvalidDimension(dimension))
    } else if dimension == dim::EPHEMERAL {
        Err(StorageError::Unsupported("EPHEMERAL in disk transaction"))
    } else {
        Ok(())
    }
}

pub fn disk_dimension(dimension: u8) -> (r: StorageResult<()>)
    ensures
        r == disk_dimension_spec(dimension),
{
    check_dimension(dimension)?;
    if dimension == dim::EPHEMERAL {
        return Err(StorageError::Unsupported("EPHEMERAL in disk transaction"));
    }
    Ok(())
}

/// What reading a shard value yields, given the transaction's view.
pub open spec fn shard_read_spec(
    committed: Map<Seq<u8>, Seq<u8>>,
    staged: Map<Seq<u8>, Option<Seq<u8>>>,
    dimension: u8,
    key: Seq<u8>,
    max_elements: nat,
) -> Result<Option<Seq<u64>>, StorageError> {
    if disk_dimension_spec(dimension) is Err {
        Err(disk_dimension_spec(dimension)->Err_0)
    } else if max_elements > MAX_VALUE_ELEMENTS {
        Err(StorageError::Limit("read element count"))
    } else {
        match lookup(committed, staged, Table::Shard(dimension), key, max_elements * 8) {
            Err(e) => Err(e),
            Ok(None) => Ok(None),
            Ok(Some(bytes)) => match field_decode(bytes, max_elements) {
                Ok(v) => Ok(Some(v)),
                Err(e) => Err(e),
            },
        }
    }
}

/// What reading a committed shard value yields outside any transaction: the
/// local-only dimension has no rows and reads as absent.
pub open spec fn load_spec(
    committed: Map<Seq<u8>, Seq<u8>>,
    dimension: u8,
    key: Seq<u8>,
    max_elements: nat,
) -> Result<Option<Seq<u64>>, StorageError> {
    if dimension == dim::EPHEMERAL {
        if max_elements > MAX_VALUE_ELEMENTS {
            Err(StorageError::Limit("read element count"))
        } else {
            Ok(None)
        }
    } else {
        shard_read_spec(committed, Map::empty(), dimension, key, max_elements)
    }
}

pub open spec fn shard_view(r: StorageResult<Option<Vec<u64>>>) -> Result<Option<Seq<u64>>, StorageError> {
    match r {
        Ok(Some(v)) => Ok(Some(v@)),
        Ok(None) => Ok(None),
        Err(e) => Err(e),
    }
}

impl<'a> Transaction<'a> {
    /// Read a shard value, including staged changes, within an element budget.
    pub fn read_shard(&self, dimension: u8, key: &[u8; 32], max_elements: usize) -> (r: StorageResult<
        Option<Vec<u64>>,
    >)
        ensures
            shard_view(r) == shard_read_spec(
                self.committed(),
                self.staged(),
                dimension,
                key@,
                max_elements as nat,
            ),
    {
        disk_dimension(dimension)?;
        check_read_limit(max_elements)?;
        let bytes = self.get(Table::Shard(dimension), key, max_elements * 8)?;
        match bytes {
            Some(b) => {
                let values = deserialize_field(b.as_slice(), max_elements)?;
                Ok(Some(values))
            },
            None => Ok(None),
        }
    }

    /// Stage a shard value of canonical field elements.
    pub fn put_shard(&mut self, dimension: u8, key: [u8; 32], value: &[u64]) -> (r: StorageResult<()>)
        requires
            old(self).wf(),
            forall|i: int| 0 <= i < value@.len() ==> value@[i] < FIELD_MODULUS,
        ensures
            final(self).wf(),
            final(self).committed() == old(self).committed(),
            final(self).committed_entries() == old(self).committed_entries(),
            disk_dimension_spec(dimension) is Err ==> r == Err::<(), StorageError>(
                disk_dimension_spec(dimension)->Err_0,
            ) && final(self).staged() == old(self).staged(),
            disk_dimension_spec(dimension) is Ok && value@.len() > MAX_VALUE_ELEMENTS ==> r
                == Err::<(), StorageError>(StorageError::Limit("read element count"))
                && final(self).staged() == old(self).staged(),
            r is Ok ==> final(self).staged() == old(self).staged().insert(
                address(Table::Shard(dimension), key@),
                Some(field_bytes(value@)),
            ),
            r is Err ==> final(self).staged() == old(self).staged(),
            disk_dimension_spec(dimension) is Ok && value@.len() <= MAX_VALUE_ELEMENTS && old(self).staged().dom().len()
                < MAX_TRANSACTION_KEYS - 2 && old(self).staged_bytes() + 32 + 8 * value@.len()
                <= MAX_TRANSACTION_BYTES - MARKER_RESERVE ==> r is Ok,
            r is Ok ==> final(self).staged_bytes() <= old(self).staged_bytes() + 32 + 8 * value@.len(),
            final(self).staged().dom().len() <= old(self).staged().dom().len() + 1,
            r is Ok ==> final(self).staged().dom().finite(),
    {
        proof {
            crate::storage::access::lemma_field_bytes_len(value@);
        }
        disk_dimension(dimension)?;
        check_read_limit(value.len())?;
        let bytes = serialize_field(value);
        self.put(Table::Shard(dimension), &key, bytes.as_slice())
    }

    /// Stage the removal of a shard value, returning the value it replaces.
    pub fn remove_shard(&mut self, dimension: u8, key: &[u8; 32]) -> (r: StorageResult<Option<Vec<u64>>>)
        requires
            old(self).wf(),
        ensures
            final(self).wf(),
            final(self).committed() == old(self).committed(),
            final(self).committed_entries() == old(self).committed_entries(),
            shard_read_spec(old(self).committed(), old(self).staged(), dimension, key@, MAX_VALUE_ELEMENTS as nat)
                is Err ==> shard_view(r) == shard_read_spec(
                old(self).committed(),
                old(self).staged(),
                dimension,
                key@,
                MAX_VALUE_ELEMENTS as nat,
            ) && final(self).staged() == old(self).staged(),
            r is Ok ==> shard_view(r) == shard_read_spec(
                old(self).committed(),
                old(self).staged(),
                dimension,
                key@,
                MAX_VALUE_ELEMENTS as nat,
            ) && final(self).staged() == old(self).staged().insert(
                address(Table::Shard(dimension), key@),
                None,
            ),
            r is Err ==> final(self).staged() == old(self).staged(),
    {
        let previous = self.read_shard(dimension, key, MAX_VALUE_ELEMENTS)?;
        self.remove(Table::Shard(dimension), key)?;
        Ok(previous)
    }
}

} // verus!
