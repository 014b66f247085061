//! Shape checks of application rows, shared by transfer and archive inspection.
use crate::storage::application::{Error, decode_head, decode_request};
use crate::storage::table::Table;
use vstd::prelude::*;

verus! {

/// A row of an application table has the shape that table stores: content by
/// a 32-byte identity, a 40-byte head per namespace, a 32-byte commit per
/// history position, a 72-byte receipt per request, a 32-byte claim.
pub open spec fn record_valid(table: Table, key: Seq<u8>, value: Seq<u8>) -> bool {
    match table {
        Table::Content => key.len() == 32,
        Table::Heads => key.len() == 32 && value.len() == 40,
        Table::History => key.len() == 40 && value.len() == 32,
        Table::Requests => key.len() == 64 && value.len() == 72,
        Table::Claims => key.len() == 32 && value.len() == 32,
        _ => false,
    }
}

pub fn validate_record(table: Table, key: &[u8], value: &[u8]) -> (r: Result<(), Error>)
    ensures
        record_valid(table, key@, value@) ==> r is Ok,
        !record_valid(table, key@, value@) ==> r matches Err(Error::Corrupt),
{
    let valid = match table {
        Table::Content => key.len() == 32,
        Table::Heads => key.len() == 32 && decode_head(value).is_ok(),
        Table::History => key.len() == 40 && value.len() == 32,
        Table::Requests => key.len() == 64 && decode_request(value).is_ok(),
        Table::Claims => key.len() == 32 && value.len() == 32,
        _ => false,
    };
    if valid {
        Ok(())
    } else {
        Err(Error::Corrupt)
    }
}

} // verus!
