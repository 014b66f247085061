//! Reader compatibility generations recorded in the migration table.
use crate::bytes::bytes_equal;
use crate::storage::access::{StorageError, StorageResult};
use crate::storage::database::{
    Database, Transaction, apply_changes, lookup, same_error, with_markers,
};
use crate::storage::table::{Table, address};
use vstd::prelude::*;
use vstd::string::StringSliceAdditionalSpecFns;

verus! {

#[derive(Debug, Clone, Copy, PartialEq, Eq, Structural)]
pub enum ReaderGeneration {
    Original,
    NeuronV1,
    AuthenticatedV1,
}

/// Generations are ordered by the features that their readers understand.
pub open spec fn generation_rank(g: ReaderGeneration) -> nat {
    match g {
        ReaderGeneration::Original => 0,
        ReaderGeneration::NeuronV1 => 1,
        ReaderGeneration::AuthenticatedV1 => 2,
    }
}

fn rank(g: ReaderGeneration) -> (r: u8)
    ensures
        r == generation_rank(g),
{
    match g {
        ReaderGeneration::Original => 0,
        ReaderGeneration::NeuronV1 => 1,
        ReaderGeneration::AuthenticatedV1 => 2,
    }
}

/// The address of the migration status record.
pub open spec fn status_address() -> Seq<u8> {
    address(Table::Migration, "status".spec_bytes())
}

/// The generation that a migration status names.
pub open spec fn decode_generation(status: Option<Seq<u8>>) -> StorageResult<ReaderGeneration> {
    match status {
        None => Ok(ReaderGeneration::Original),
        Some(s) => if s == "complete".spec_bytes() {
            Ok(ReaderGeneration::Original)
        } else if s == "neuron-v1".spec_bytes() {
            Ok(ReaderGeneration::NeuronV1)
        } else if s == "auth-v1".spec_bytes() {
            Ok(ReaderGeneration::AuthenticatedV1)
        } else {
            Err(StorageError::Corrupt("unsupported reader generation or incomplete migration"))
        },
    }
}

/// The status marker that records a generation.
pub open spec fn generation_marker(g: ReaderGeneration) -> Seq<u8> {
    match g {
        ReaderGeneration::Original => "complete".spec_bytes(),
        ReaderGeneration::NeuronV1 => "neuron-v1".spec_bytes(),
        ReaderGeneration::AuthenticatedV1 => "auth-v1".spec_bytes(),
    }
}

fn decode(status: Option<&[u8]>) -> (r: StorageResult<ReaderGeneration>)
    ensures
        r == decode_generation(
            match status {
                Some(s) => Some(s@),
                None => None,
            },
        ),
{
    match status {
        None => Ok(ReaderGeneration::Original),
        Some(s) => {
            if bytes_equal(s, "complete".as_bytes()) {
                Ok(ReaderGeneration::Original)
            } else if bytes_equal(s, "neuron-v1".as_bytes()) {
                Ok(ReaderGeneration::NeuronV1)
            } else if bytes_equal(s, "auth-v1".as_bytes()) {
                Ok(ReaderGeneration::AuthenticatedV1)
            } else {
                Err(StorageError::Corrupt("unsupported reader generation or incomplete migration"))
            }
        },
    }
}

/// The status read within a 16-byte budget, as the generation functions see it.
pub open spec fn status_read(committed: Map<Seq<u8>, Seq<u8>>, staged: Map<Seq<u8>, Option<Seq<u8>>>) -> StorageResult<
    ReaderGeneration,
> {
    match lookup(committed, staged, Table::Migration, "status".spec_bytes(), 16) {
        Err(e) => Err(e),
        Ok(status) => decode_generation(status),
    }
}

proof fn lemma_status_key()
    ensures
        "status".spec_bytes().len() == 6,
{
    reveal_strlit("status");
    vstd::string::is_ascii_spec_bytes("status");
}

proof fn lemma_marker_lengths()
    ensures
        "neuron-v1".spec_bytes().len() == 9,
        "auth-v1".spec_bytes().len() == 7,
{
    reveal_strlit("neuron-v1");
    vstd::string::is_ascii_spec_bytes("neuron-v1");
    reveal_strlit("auth-v1");
    vstd::string::is_ascii_spec_bytes("auth-v1");
}

/// Raise the recorded generation to at least `required`; never lowers it.
pub fn promote(tx: &mut Transaction<'_>, required: ReaderGeneration) -> (r: StorageResult<ReaderGeneration>)
    requires
        old(tx).wf(),
    ensures
        final(tx).wf(),
        final(tx).committed() == old(tx).committed(),
        final(tx).committed_entries() == old(tx).committed_entries(),
        match status_read(old(tx).committed(), old(tx).staged()) {
            Err(e) => r == Err::<ReaderGeneration, StorageError>(e) && final(tx).staged() == old(tx).staged(),
            Ok(current) => if generation_rank(current) >= generation_rank(required) {
                r == Ok::<ReaderGeneration, StorageError>(current) && final(tx).staged() == old(tx).staged()
            } else {
                &&& r is Ok ==> r == Ok::<ReaderGeneration, StorageError>(required) && final(tx).staged()
                    == old(tx).staged().insert(status_address(), Some(generation_marker(required)))
                &&& r is Err ==> final(tx).staged() == old(tx).staged()
                &&& old(tx).staged_bytes() == 0 && old(tx).staged().dom().len() == 0 ==> r is Ok
            },
        },
        r is Ok ==> final(tx).staged_bytes() <= old(tx).staged_bytes() + 15,
        final(tx).staged().dom().len() <= old(tx).staged().dom().len() + 1,
        old(tx).staged().dom().finite() ==> final(tx).staged().dom().finite(),
{
    proof {
        lemma_status_key();
        lemma_marker_lengths();
        reveal_strlit("neuron-v1");
        vstd::string::is_ascii_spec_bytes("neuron-v1");
        reveal_strlit("auth-v1");
        vstd::string::is_ascii_spec_bytes("auth-v1");
    }
    let status = tx.get(Table::Migration, "status".as_bytes(), 16)?;
    let current = match status {
        Some(s) => decode(Some(s.as_slice()))?,
        None => decode(None)?,
    };
    if rank(current) >= rank(required) {
        return Ok(current);
    }
    let marker: &[u8] = match required {
        ReaderGeneration::Original => {
            return Ok(current);
        },
        ReaderGeneration::NeuronV1 => "neuron-v1".as_bytes(),
        ReaderGeneration::AuthenticatedV1 => "auth-v1".as_bytes(),
    };
    tx.put(Table::Migration, "status".as_bytes(), marker)?;
    Ok(required)
}

impl Database {
    /// The generation recorded in the migration status.
    pub fn reader_generation(&self) -> (r: StorageResult<ReaderGeneration>)
        ensures
            self.failure() matches Some(f) ==> (r matches Err(e) && same_error(e, f)),
            self.failure() is None ==> r == status_read(self.contents(), Map::empty()),
    {
        proof {
            lemma_status_key();
        }
        let status = self.read(Table::Migration, "status".as_bytes(), 16)?;
        match status {
            Some(s) => decode(Some(s.as_slice())),
            None => decode(None),
        }
    }

    /// Raise the recorded generation to at least `required` in one transaction.
    pub fn require_reader_generation(&mut self, required: ReaderGeneration) -> (r: StorageResult<
        ReaderGeneration,
    >)
        ensures
            final(self).failure() == old(self).failure(),
            old(self).failure() matches Some(f) ==> (r matches Err(e) && same_error(e, f)
                && final(self).contents() == old(self).contents()),
            old(self).failure() is None ==> match status_read(old(self).contents(), Map::empty()) {
                Err(e) => r == Err::<ReaderGeneration, StorageError>(e) && final(self).contents()
                    == old(self).contents(),
                Ok(current) => if generation_rank(current) >= generation_rank(required) {
                    r == Ok::<ReaderGeneration, StorageError>(current) && final(self).contents()
                        == old(self).contents()
                } else {
                    r == Ok::<ReaderGeneration, StorageError>(required) && exists|id: Seq<u8>|
                        final(self).contents() == apply_changes(
                            old(self).contents(),
                            with_markers(
                                Map::empty().insert(status_address(), Some(generation_marker(required))),
                                id,
                            ),
                        )
                },
            },
    {
        let changes = {
            let mut tx = self.begin()?;
            let result = promote(&mut tx, required);
            match result {
                Ok(g) => (g, tx.into_changes()),
                Err(e) => {
                    return Err(e);
                },
            }
        };
        let (generation, changes) = changes;
        let ghost staged = crate::storage::database::staged_of(changes@);
        let id = self.commit(changes);
        proof {
            if id is Some {
                let i = id->Some_0;
                assert(final(self).contents() == apply_changes(old(self).contents(), with_markers(staged, i@)));
            }
        }
        Ok(generation)
    }
}

} // verus!
