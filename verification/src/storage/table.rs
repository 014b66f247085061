//! The tables of the shared owner. Every row lives at an address made of a
//! one-byte table code followed by its key; codes follow the order of the table
//! names, so addresses sort by (table name, key).
use crate::storage::records::RecordDomain;
use vstd::prelude::*;

verus! {

#[derive(Debug, Clone, Copy, PartialEq, Eq, Structural)]
pub enum Table {
    Shard(u8),
    Metadata,
    Content,
    Heads,
    History,
    Requests,
    Claims,
    Migration,
    Native(RecordDomain),
    Uploads,
    Parts,
    PartChecks,
    Files,
    RetainedContent,
}

/// Number of shard dimensions that have a table.
pub const SHARD_TABLES: u8 = 14;

/// Shard tables exist for dimensions `0..SHARD_TABLES`.
pub open spec fn table_valid(t: Table) -> bool {
    match t {
        Table::Shard(d) => d < SHARD_TABLES,
        _ => true,
    }
}

pub open spec fn table_name(t: Table) -> &'static str {
    match t {
        Table::Shard(d) => if d == 0 {
            "particles"
        } else if d == 1 {
            "axons_out"
        } else if d == 2 {
            "axons_in"
        } else if d == 3 {
            "neurons"
        } else if d == 4 {
            "locations"
        } else if d == 5 {
            "coins"
        } else if d == 6 {
            "cards"
        } else if d == 7 {
            "files"
        } else if d == 8 {
            "time"
        } else if d == 9 {
            "signals"
        } else if d == 10 {
            "commitments"
        } else if d == 11 {
            "nullifiers"
        } else if d == 12 {
            "intents"
        } else {
            "ephemeral"
        },
        Table::Metadata => "bbg_storage_v1",
        Table::Content => "application_content",
        Table::Heads => "application_heads",
        Table::History => "application_history",
        Table::Requests => "application_requests",
        Table::Claims => "application_unique_claims",
        Table::Migration => "bbg_import_v1",
        Table::Native(domain) => match domain {
            RecordDomain::NativeState => "native_state_v1",
            RecordDomain::NativeHistory => "native_history_v1",
            RecordDomain::NativeRequests => "native_requests_v1",
            RecordDomain::NativeMetadata => "native_metadata_v1",
            RecordDomain::NativeBalances => "native_balances_v1",
            RecordDomain::NativeBlocks => "native_blocks_v1",
            RecordDomain::NativeExport => "native_export_v1",
        },
        Table::Uploads => "content_uploads",
        Table::Parts => "content_parts",
        Table::PartChecks => "content_part_checks",
        Table::Files => "content_files",
        Table::RetainedContent => "content_retained",
    }
}

/// The rank of the table's name among all table names.
pub open spec fn table_code(t: Table) -> u8 {
    match t {
        Table::Content => 0,
        Table::Heads => 1,
        Table::History => 2,
        Table::Requests => 3,
        Table::Claims => 4,
        Table::Migration => 7,
        Table::Metadata => 8,
        Table::Files => 12,
        Table::PartChecks => 13,
        Table::Parts => 14,
        Table::RetainedContent => 15,
        Table::Uploads => 16,
        Table::Native(domain) => match domain {
            RecordDomain::NativeBalances => 21,
            RecordDomain::NativeBlocks => 22,
            RecordDomain::NativeExport => 23,
            RecordDomain::NativeHistory => 24,
            RecordDomain::NativeMetadata => 25,
            RecordDomain::NativeRequests => 26,
            RecordDomain::NativeState => 27,
        },
        Table::Shard(d) => if d == 2 {
            5
        } else if d == 1 {
            6
        } else if d == 6 {
            9
        } else if d == 5 {
            10
        } else if d == 10 {
            11
        } else if d == 13 {
            17
        } else if d == 7 {
            18
        } else if d == 12 {
            19
        } else if d == 4 {
            20
        } else if d == 3 {
            28
        } else if d == 11 {
            29
        } else if d == 0 {
            30
        } else if d == 9 {
            31
        } else if d == 8 {
            32
        } else {
            255
        },
    }
}

/// The table whose code is `c`.
pub open spec fn table_of_code(c: u8) -> Table {
    if c == 0 {
        Table::Content
    } else if c == 1 {
        Table::Heads
    } else if c == 2 {
        Table::History
    } else if c == 3 {
        Table::Requests
    } else if c == 4 {
        Table::Claims
    } else if c == 5 {
        Table::Shard(2)
    } else if c == 6 {
        Table::Shard(1)
    } else if c == 7 {
        Table::Migration
    } else if c == 8 {
        Table::Metadata
    } else if c == 9 {
        Table::Shard(6)
    } else if c == 10 {
        Table::Shard(5)
    } else if c == 11 {
        Table::Shard(10)
    } else if c == 12 {
        Table::Files
    } else if c == 13 {
        Table::PartChecks
    } else if c == 14 {
        Table::Parts
    } else if c == 15 {
        Table::RetainedContent
    } else if c == 16 {
        Table::Uploads
    } else if c == 17 {
        Table::Shard(13)
    } else if c == 18 {
        Table::Shard(7)
    } else if c == 19 {
        Table::Shard(12)
    } else if c == 20 {
        Table::Shard(4)
    } else if c == 21 {
        Table::Native(RecordDomain::NativeBalances)
    } else if c == 22 {
        Table::Native(RecordDomain::NativeBlocks)
    } else if c == 23 {
        Table::Native(RecordDomain::NativeExport)
    } else if c == 24 {
        Table::Native(RecordDomain::NativeHistory)
    } else if c == 25 {
        Table::Native(RecordDomain::NativeMetadata)
    } else if c == 26 {
        Table::Native(RecordDomain::NativeRequests)
    } else if c == 27 {
        Table::Native(RecordDomain::NativeState)
    } else if c == 28 {
        Table::Shard(3)
    } else if c == 29 {
        Table::Shard(11)
    } else if c == 30 {
        Table::Shard(0)
    } else if c == 31 {
        Table::Shard(9)
    } else {
        Table::Shard(8)
    }
}

/// Codes 0..=32 name tables; every valid table has one.
pub open spec fn code_valid(c: u8) -> bool {
    c <= 32
}

pub proof fn lemma_table_code(t: Table)
    requires
        table_valid(t),
    ensures
        code_valid(table_code(t)),
        table_of_code(table_code(t)) == t,
{
}

pub proof fn lemma_code_table(c: u8)
    requires
        code_valid(c),
    ensures
        table_valid(table_of_code(c)),
        table_code(table_of_code(c)) == c,
{
}

/// Shard tables are exactly those whose code names a `Table::Shard`.
pub open spec fn is_shard_code(c: u8) -> bool {
    table_of_code(c) is Shard
}

/// The address of `key` in table `t`.
pub open spec fn address(t: Table, key: Seq<u8>) -> Seq<u8> {
    seq![table_code(t)] + key
}

pub proof fn lemma_address_injective(t1: Table, k1: Seq<u8>, t2: Table, k2: Seq<u8>)
    requires
        table_valid(t1),
        table_valid(t2),
        address(t1, k1) == address(t2, k2),
    ensures
        t1 == t2,
        k1 == k2,
{
    lemma_table_code(t1);
    lemma_table_code(t2);
    assert(address(t1, k1)[0] == table_code(t1));
    assert(address(t2, k2)[0] == table_code(t2));
    assert(k1 =~= address(t1, k1).drop_first());
    assert(k2 =~= address(t2, k2).drop_first());
}

impl Table {
    pub fn name(self) -> (r: &'static str)
        ensures
            r == table_name(self),
    {
        match self {
            Table::Shard(d) => if d == 0 {
                "particles"
            } else if d == 1 {
                "axons_out"
            } else if d == 2 {
                "axons_in"
            } else if d == 3 {
                "neurons"
            } else if d == 4 {
                "locations"
            } else if d == 5 {
                "coins"
            } else if d == 6 {
                "cards"
            } else if d == 7 {
                "files"
            } else if d == 8 {
                "time"
            } else if d == 9 {
                "signals"
            } else if d == 10 {
                "commitments"
            } else if d == 11 {
                "nullifiers"
            } else if d == 12 {
                "intents"
            } else {
                "ephemeral"
            },
            Table::Metadata => "bbg_storage_v1",
            Table::Content => "application_content",
            Table::Heads => "application_heads",
            Table::History => "application_history",
            Table::Requests => "application_requests",
            Table::Claims => "application_unique_claims",
            Table::Migration => "bbg_import_v1",
            Table::Native(domain) => match domain {
                RecordDomain::NativeState => "native_state_v1",
                RecordDomain::NativeHistory => "native_history_v1",
                RecordDomain::NativeRequests => "native_requests_v1",
                RecordDomain::NativeMetadata => "native_metadata_v1",
                RecordDomain::NativeBalances => "native_balances_v1",
                RecordDomain::NativeBlocks => "native_blocks_v1",
                RecordDomain::NativeExport => "native_export_v1",
            },
            Table::Uploads => "content_uploads",
            Table::Parts => "content_parts",
            Table::PartChecks => "content_part_checks",
            Table::Files => "content_files",
            Table::RetainedContent => "content_retained",
        }
    }

    pub fn code(self) -> (c: u8)
        ensures
            c == table_code(self),
    {
        match self {
            Table::Content => 0,
            Table::Heads => 1,
            Table::History => 2,
            Table::Requests => 3,
            Table::Claims => 4,
            Table::Migration => 7,
            Table::Metadata => 8,
            Table::Files => 12,
            Table::PartChecks => 13,
            Table::Parts => 14,
            Table::RetainedContent => 15,
            Table::Uploads => 16,
            Table::Native(domain) => match domain {
                RecordDomain::NativeBalances => 21,
                RecordDomain::NativeBlocks => 22,
                RecordDomain::NativeExport => 23,
                RecordDomain::NativeHistory => 24,
                RecordDomain::NativeMetadata => 25,
                RecordDomain::NativeRequests => 26,
                RecordDomain::NativeState => 27,
            },
            Table::Shard(d) => if d == 2 {
                5
            } else if d == 1 {
                6
            } else if d == 6 {
                9
            } else if d == 5 {
                10
            } else if d == 10 {
                11
            } else if d == 13 {
                17
            } else if d == 7 {
                18
            } else if d == 12 {
                19
            } else if d == 4 {
                20
            } else if d == 3 {
                28
            } else if d == 11 {
                29
            } else if d == 0 {
                30
            } else if d == 9 {
                31
            } else if d == 8 {
                32
            } else {
                255
            },
        }
    }

    /// The table whose code is `c`.
    pub fn from_code(c: u8) -> (t: Table)
        ensures
            t == table_of_code(c),
    {
        if c == 0 {
            Table::Content
        } else if c == 1 {
            Table::Heads
        } else if c == 2 {
            Table::History
        } else if c == 3 {
            Table::Requests
        } else if c == 4 {
            Table::Claims
        } else if c == 5 {
            Table::Shard(2)
        } else if c == 6 {
            Table::Shard(1)
        } else if c == 7 {
            Table::Migration
        } else if c == 8 {
            Table::Metadata
        } else if c == 9 {
            Table::Shard(6)
        } else if c == 10 {
            Table::Shard(5)
        } else if c == 11 {
            Table::Shard(10)
        } else if c == 12 {
            Table::Files
        } else if c == 13 {
            Table::PartChecks
        } else if c == 14 {
            Table::Parts
        } else if c == 15 {
            Table::RetainedContent
        } else if c == 16 {
            Table::Uploads
        } else if c == 17 {
            Table::Shard(13)
        } else if c == 18 {
            Table::Shard(7)
        } else if c == 19 {
            Table::Shard(12)
        } else if c == 20 {
            Table::Shard(4)
        } else if c == 21 {
            Table::Native(RecordDomain::NativeBalances)
        } else if c == 22 {
            Table::Native(RecordDomain::NativeBlocks)
        } else if c == 23 {
            Table::Native(RecordDomain::NativeExport)
        } else if c == 24 {
            Table::Native(RecordDomain::NativeHistory)
        } else if c == 25 {
            Table::Native(RecordDomain::NativeMetadata)
        } else if c == 26 {
            Table::Native(RecordDomain::NativeRequests)
        } else if c == 27 {
            Table::Native(RecordDomain::NativeState)
        } else if c == 28 {
            Table::Shard(3)
        } else if c == 29 {
            Table::Shard(11)
        } else if c == 30 {
            Table::Shard(0)
        } else if c == 31 {
            Table::Shard(9)
        } else {
            Table::Shard(8)
        }
    }
}

/// The address of `key` in `table`.
pub fn make_address(table: Table, key: &[u8]) -> (a: Vec<u8>)
    ensures
        a@ == address(table, key@),
{
    let mut a: Vec<u8> = Vec::new();
    a.push(table.code());
    crate::bytes::append_bytes(&mut a, key);
    assert(a@ =~= address(table, key@));
    a
}

} // verus!
