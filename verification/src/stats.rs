//! Committed graph statistics: the values that bound and cost recursion over
//! the graph, folded into the state root through their commitment.
use crate::hash::{hemera_digest, hemera_hash};
use crate::storage::access::{field_bytes, field_values, lemma_field_bytes_len, lemma_field_roundtrip, serialize_field};
use vstd::prelude::*;

pub mod rel;

verus! {

pub type Particle = [u8; 32];

/// Number of committed relations whose sizes are tracked.
pub const STAT_RELATIONS: usize = 11;

/// Committed graph statistics, authenticated by inclusion in the state root.
#[derive(Clone, Debug, PartialEq, Eq)]
pub struct GraphStats {
    /// Number of particles (graph nodes).
    pub node_count: u64,
    /// Per-relation entry counts, indexed by the `rel` constants.
    pub relation_sizes: [u64; 11],
    /// Maximum out/in adjacency-list length across all particles.
    pub max_degree: u64,
    /// Sound upper bound on graph diameter.
    pub diameter_bound: u64,
}

/// The statistics as integers, in serialization order.
pub open spec fn stats_values(s: GraphStats) -> Seq<u64> {
    seq![s.node_count] + s.relation_sizes@ + seq![s.max_degree, s.diameter_bound]
}

/// The canonical serialization: every statistic as eight little-endian bytes.
pub open spec fn stats_bytes(s: GraphStats) -> Seq<u8> {
    field_bytes(stats_values(s))
}

impl GraphStats {
    /// Canonical little-endian serialization: node_count, relation_sizes,
    /// max_degree, diameter_bound. Single valid encoding per value.
    pub fn serialize(&self) -> (out: Vec<u8>)
        ensures
            out@ == stats_bytes(*self),
            out@.len() == 8 * (1 + STAT_RELATIONS + 2),
    {
        let mut values: Vec<u64> = Vec::with_capacity(1 + STAT_RELATIONS + 2);
        values.push(self.node_count);
        let mut i: usize = 0;
        while i < STAT_RELATIONS
            invariant
                i <= STAT_RELATIONS,
                values@ =~= seq![self.node_count] + self.relation_sizes@.take(i as int),
            decreases STAT_RELATIONS - i,
        {
            values.push(self.relation_sizes[i]);
            assert(self.relation_sizes@.take(i + 1) =~= self.relation_sizes@.take(i as int).push(
                self.relation_sizes@[i as int],
            ));
            i = i + 1;
        }
        values.push(self.max_degree);
        values.push(self.diameter_bound);
        assert(self.relation_sizes@.take(11) =~= self.relation_sizes@);
        assert(values@ =~= stats_values(*self));
        proof {
            lemma_field_bytes_len(stats_values(*self));
        }
        serialize_field(values.as_slice())
    }

    /// Commitment to these statistics: the hemera hash of the serialization.
    pub fn commit(&self) -> (out: Particle)
        ensures
            out@ == hemera_digest(stats_bytes(*self)),
    {
        let bytes = self.serialize();
        hemera_hash(bytes.as_slice())
    }
}

/// The serialization is canonical: different statistics never share bytes,
/// so the commitment binds every field.
pub proof fn law_serialization_is_injective(a: GraphStats, b: GraphStats)
    requires
        stats_bytes(a) == stats_bytes(b),
    ensures
        a == b,
{
    lemma_field_roundtrip(stats_values(a));
    lemma_field_roundtrip(stats_values(b));
    let va = stats_values(a);
    let vb = stats_values(b);
    assert(va == vb);
    assert(a.node_count == va[0]);
    assert(b.node_count == vb[0]);
    assert forall|i: int| 0 <= i < 11 implies a.relation_sizes@[i] == b.relation_sizes@[i] by {
        assert(va[1 + i] == a.relation_sizes@[i]);
        assert(vb[1 + i] == b.relation_sizes@[i]);
    }
    assert(a.relation_sizes =~= b.relation_sizes);
    assert(va[12] == a.max_degree && vb[12] == b.max_degree);
    assert(va[13] == a.diameter_bound && vb[13] == b.diameter_bound);
}

/// Equal statistics commit to equal values.
pub proof fn law_commit_is_deterministic(a: GraphStats, b: GraphStats)
    requires
        a == b,
    ensures
        hemera_digest(stats_bytes(a)) == hemera_digest(stats_bytes(b)),
{
}

} // verus!
