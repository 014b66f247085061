//! Pruning policy: its configuration, and the runtime record of when each
//! axon was last touched. Policy state lives outside the state root.
use crate::bytes::{copy_bytes, lex_lt};
use crate::ordered::OrderedMap;
use crate::state::{
    BbgState, Graph, candidate, estimate, graph_finite, lemma_remove_estimate, rank_floor_spec, remove_graph,
    weight_of,
};
use crate::types::Particle;
use vstd::prelude::*;

verus! {

/// Pruning configuration: three parameters, no hardcoded constants.
#[derive(Debug, Clone, Copy, PartialEq, Eq)]
pub struct PruneConfig {
    /// Maximum estimated state size in bytes before gravity pruning starts.
    pub max_bytes: u64,
    /// Top percentile of focus (0 to 100) that is never pruned.
    pub rank_floor_pct: u8,
    /// Epochs without a signal before an edge is stale.
    pub half_life_epochs: u64,
}

impl Default for PruneConfig {
    /// One GiB of state, the top fifth protected, a thousand-epoch half-life.
    fn default() -> (c: Self)
        ensures
            c.max_bytes == 1_073_741_824 && c.rank_floor_pct == 20 && c.half_life_epochs == 1000,
    {
        PruneConfig { max_bytes: 1_073_741_824, rank_floor_pct: 20, half_life_epochs: 1000 }
    }
}

/// Runtime pruning state: the epoch of the last signal that touched each axon,
/// by axon id.
pub struct PruneState {
    pub last_touched: OrderedMap<u64>,
}

impl PruneState {
    /// The last-touched epochs, by axon id.
    pub open spec fn view(&self) -> Map<Seq<u8>, u64> {
        self.last_touched@
    }

    /// No axon touched yet.
    pub fn new() -> (s: Self)
        ensures
            s@ == Map::<Seq<u8>, u64>::empty(),
    {
        PruneState { last_touched: OrderedMap::new() }
    }

    /// Record that `axon_id` was touched at `epoch`.
    pub fn touch(&mut self, axon_id: Particle, epoch: u64)
        ensures
            final(self)@ == old(self)@.insert(axon_id@, epoch),
    {
        self.last_touched.set(copy_bytes(&axon_id), epoch);
    }

    /// The epoch at which `axon_id` was last touched, if it was.
    pub fn last_touched(&self, axon_id: &Particle) -> (r: Option<u64>)
        ensures
            match r {
                Some(e) => self@.dom().contains(axon_id@) && e == self@[axon_id@],
                None => !self@.dom().contains(axon_id@),
            },
    {
        match self.last_touched.get(axon_id) {
            Some(e) => Some(*e),
            None => None,
        }
    }
}


/// After touching an axon at an epoch, its last touch reads back as that epoch.
pub proof fn law_touch_then_read(before: Map<Seq<u8>, u64>, axon_id: Particle, epoch: u64)
    ensures
        before.insert(axon_id@, epoch).dom().contains(axon_id@),
        before.insert(axon_id@, epoch)[axon_id@] == epoch,
{
}

/// The order in which a pruning cycle removes its candidates: each candidate
/// once, by ascending weight, then by id.
pub open spec fn prune_order(
    g: Graph,
    touched: Map<Seq<u8>, u64>,
    floor: u64,
    over: bool,
    epoch: u64,
    half_life: u64,
    order: Seq<Seq<u8>>,
) -> bool {
    &&& order.no_duplicates()
    &&& forall|id: Seq<u8>| order.contains(id) <==> candidate(g, touched, floor, over, epoch, half_life, id)
    &&& forall|i: int, j: int|
        0 <= i < j < order.len() ==> weight_of(g, #[trigger] order[i]) < weight_of(g, #[trigger] order[j]) || (
        weight_of(g, order[i]) == weight_of(g, order[j]) && lex_lt(order[i], order[j]))
}

/// The graphs along a pruning cycle, each after one more removal in
/// `order`; with a budget, removal stops as soon as the estimate is within it.
pub open spec fn prune_trace(gs: Seq<Graph>, order: Seq<Seq<u8>>, over: bool, max_bytes: u64) -> bool {
    &&& 1 <= gs.len() <= order.len() + 1
    &&& forall|i: int| 0 <= i < gs.len() - 1 ==> #[trigger] remove_graph(gs[i], order[i]) == gs[i + 1]
    &&& over ==> forall|i: int| 0 <= i < gs.len() - 1 ==> estimate(#[trigger] gs[i]) > max_bytes
    &&& over ==> (gs.len() == order.len() + 1 || estimate(gs.last()) <= max_bytes)
    &&& !over ==> gs.len() == order.len() + 1
}

/// The touch record without the entries of `ids`.
pub open spec fn forget(m: Map<Seq<u8>, u64>, ids: Seq<Seq<u8>>) -> Map<Seq<u8>, u64>
    decreases ids.len(),
{
    if ids.len() == 0 {
        m
    } else {
        forget(m, ids.drop_last()).remove(ids.last())
    }
}

/// Candidates ordered by weight, then by id.
pub open spec fn candidate_le(a: (u64, Vec<u8>), b: (u64, Vec<u8>)) -> bool {
    a.0 < b.0 || (a.0 == b.0 && (a.1@ == b.1@ || lex_lt(a.1@, b.1@)))
}

/// Calls `slice::sort_unstable` on (weight, id) pairs. std orders tuples,
/// integers and vectors lexicographically, so the result is the same pairs
/// ascending by weight, then by id.
#[verifier::external_body]
fn sort_candidates(v: &mut Vec<(u64, Vec<u8>)>)
    ensures
        final(v)@.to_multiset() == old(v)@.to_multiset(),
        vstd::relations::sorted_by(final(v)@, |a: (u64, Vec<u8>), b: (u64, Vec<u8>)| candidate_le(a, b)),
{
    v.sort_unstable();
}

/// Sorting ascending candidates keeps them, once each, in weight-then-id order.
proof fn lemma_sorted_candidates(
    g: Graph,
    touched: Map<Seq<u8>, u64>,
    floor: u64,
    over: bool,
    epoch: u64,
    half_life: u64,
    pre: Seq<(u64, Vec<u8>)>,
    post: Seq<(u64, Vec<u8>)>,
)
    requires
        forall|i: int| 0 <= i < pre.len() ==> (#[trigger] pre[i]).0 == weight_of(g, pre[i].1@),
        forall|i: int| 0 <= i < pre.len() ==> candidate(g, touched, floor, over, epoch, half_life, (#[trigger] pre[i]).1@),
        forall|id: Seq<u8>|
            candidate(g, touched, floor, over, epoch, half_life, id) ==> exists|i: int|
                0 <= i < pre.len() && (#[trigger] pre[i]).1@ == id,
        forall|i: int, j: int| 0 <= i < j < pre.len() ==> lex_lt(#[trigger] pre[i].1@, #[trigger] pre[j].1@),
        post.to_multiset() == pre.to_multiset(),
        vstd::relations::sorted_by(post, |a: (u64, Vec<u8>), b: (u64, Vec<u8>)| candidate_le(a, b)),
    ensures
        prune_order(g, touched, floor, over, epoch, half_life, post.map_values(|c: (u64, Vec<u8>)| c.1@)),
{
    broadcast use vstd::seq_lib::group_to_multiset_ensures;

    let order = post.map_values(|c: (u64, Vec<u8>)| c.1@);
    assert(pre.no_duplicates()) by {
        assert forall|i: int, j: int| 0 <= i < pre.len() && 0 <= j < pre.len() && i != j implies pre[i] != pre[j] by {
            if i < j {
                crate::bytes::lemma_lex_irreflexive(pre[i].1@);
            } else {
                crate::bytes::lemma_lex_irreflexive(pre[j].1@);
            }
        }
    }
    pre.lemma_multiset_has_no_duplicates();
    post.lemma_multiset_has_no_duplicates_conv();
    assert forall|x: int| 0 <= x < post.len() implies exists|i: int| 0 <= i < pre.len() && pre[i] == #[trigger] post[x] by {
        assert(post.to_multiset().count(post[x]) > 0);
        assert(pre.contains(post[x]));
    }
    assert forall|x: int, z: int| 0 <= x < z < post.len() implies order[x] != order[z] by {
        let i = choose|i: int| 0 <= i < pre.len() && pre[i] == #[trigger] post[x];
        let j = choose|j: int| 0 <= j < pre.len() && pre[j] == #[trigger] post[z];
        assert(post[x] != post[z]);
        assert(i != j);
        if i < j {
            crate::bytes::lemma_lex_irreflexive(pre[i].1@);
        } else {
            crate::bytes::lemma_lex_irreflexive(pre[j].1@);
        }
    }
    assert(order.no_duplicates());
    assert forall|id: Seq<u8>| order.contains(id) <==> candidate(g, touched, floor, over, epoch, half_life, id) by {
        if order.contains(id) {
            let x = choose|x: int| 0 <= x < order.len() && order[x] == id;
            let i = choose|i: int| 0 <= i < pre.len() && pre[i] == #[trigger] post[x];
        }
        if candidate(g, touched, floor, over, epoch, half_life, id) {
            let i = choose|i: int| 0 <= i < pre.len() && (#[trigger] pre[i]).1@ == id;
            assert(pre.contains(pre[i]));
            assert(pre.to_multiset().count(pre[i]) > 0);
            assert(post.contains(pre[i]));
            let x = choose|x: int| 0 <= x < post.len() && post[x] == pre[i];
            assert(order[x] == id);
        }
    }
    assert forall|x: int, z: int| 0 <= x < z < order.len() implies weight_of(g, #[trigger] order[x]) < weight_of(
        g,
        #[trigger] order[z],
    ) || (weight_of(g, order[x]) == weight_of(g, order[z]) && lex_lt(order[x], order[z])) by {
        let i = choose|i: int| 0 <= i < pre.len() && pre[i] == #[trigger] post[x];
        let j = choose|j: int| 0 <= j < pre.len() && pre[j] == #[trigger] post[z];
        let leq = |a: (u64, Vec<u8>), b: (u64, Vec<u8>)| candidate_le(a, b);
        assert(leq(post[x], post[z]));
        assert(order[x] != order[z]);
    }
}

/// Run one pruning cycle at the end of `epoch`. Over the size budget every
/// particle below the rank floor competes, lowest weight first, until the
/// estimate is within budget; otherwise every stale touched entry below the
/// floor is removed. The state root is recomputed by the caller.
pub fn prune(state: &mut BbgState, ps: &mut PruneState, config: &PruneConfig, epoch: u64)
    requires
        estimate(old(state).graph()) <= u64::MAX,
    ensures
        exists|order: Seq<Seq<u8>>, gs: Seq<Graph>|
            {
                let g0 = old(state).graph();
                let over = estimate(g0) > config.max_bytes;
                &&& prune_order(
                    g0,
                    old(ps)@,
                    rank_floor_spec(old(state).pi_scores(), config.rank_floor_pct),
                    over,
                    epoch,
                    config.half_life_epochs,
                    order,
                )
                &&& prune_trace(gs, order, over, config.max_bytes)
                &&& gs[0] == g0
                &&& gs.last() == final(state).graph()
                &&& final(ps)@ == forget(old(ps)@, #[trigger] order.take(gs.len() - 1))
            },
        final(state).nullifiers_view() == old(state).nullifiers_view(),
        final(state).commitments_view() == old(state).commitments_view(),
        final(state).intents_view() == old(state).intents_view(),
        final(state).signals_view() == old(state).signals_view(),
        final(state).time_view() == old(state).time_view(),
        final(state).fixed_sizes() == old(state).fixed_sizes(),
        final(state).diameter_override_view() == old(state).diameter_override_view(),
        final(state).height_view() == old(state).height_view(),
{
    state.graph_facts();
    let ghost g0 = state.graph();
    let ghost ps0 = ps@;
    let floor = state.rank_floor(config.rank_floor_pct);
    let over_budget = state.estimate_bytes() > config.max_bytes;
    let mut cands = state.prune_candidates(ps, floor, over_budget, epoch, config.half_life_epochs);
    let ghost pre = cands@;
    sort_candidates(&mut cands);
    let ghost order = cands@.map_values(|c: (u64, Vec<u8>)| c.1@);
    proof {
        lemma_sorted_candidates(g0, ps0, floor, over_budget, epoch, config.half_life_epochs, pre, cands@);
    }
    let ghost mut gs: Seq<Graph> = seq![g0];
    let mut k: usize = 0;
    let mut done = false;
    proof {
        assert(order.take(0) =~= Seq::<Seq<u8>>::empty());
    }
    while k < cands.len() && !done
        invariant
            order == cands@.map_values(|c: (u64, Vec<u8>)| c.1@),
            k <= cands@.len(),
            gs.len() == k + 1,
            gs[0] == g0,
            gs.last() == state.graph(),
            forall|i: int| 0 <= i < gs.len() - 1 ==> #[trigger] remove_graph(gs[i], order[i]) == gs[i + 1],
            over_budget ==> forall|i: int| 0 <= i < gs.len() - 1 ==> estimate(#[trigger] gs[i]) > config.max_bytes,
            done ==> over_budget && estimate(state.graph()) <= config.max_bytes,
            ps@ == forget(ps0, order.take(k as int)),
            graph_finite(state.graph()),
            estimate(state.graph()) <= u64::MAX,
            over_budget == (estimate(g0) > config.max_bytes),
            state.nullifiers_view() == old(state).nullifiers_view(),
            state.commitments_view() == old(state).commitments_view(),
            state.intents_view() == old(state).intents_view(),
            state.signals_view() == old(state).signals_view(),
            state.time_view() == old(state).time_view(),
            state.fixed_sizes() == old(state).fixed_sizes(),
            state.diameter_override_view() == old(state).diameter_override_view(),
            state.height_view() == old(state).height_view(),
        decreases cands@.len() - k + (if done { 0int } else { 1int }),
    {
        if over_budget && state.estimate_bytes() <= config.max_bytes {
            done = true;
        } else {
            let ghost before = state.graph();
            proof {
                lemma_remove_estimate(before, order[k as int]);
                assert(order[k as int] == cands@[k as int].1@);
            }
            state.remove_axon(ps, cands[k].1.as_slice());
            proof {
                let t = order.take(k + 1);
                assert(t.drop_last() =~= order.take(k as int));
                assert(t.last() == order[k as int]);
                gs = gs.push(state.graph());
                assert(gs[k as int] == before);
            }
            k = k + 1;
        }
    }
    proof {
        if !done {
            assert(k == cands@.len());
        }
    }
}

/// Rough storage estimate in bytes for the graph dimensions of the state.
pub fn estimate_bytes(state: &BbgState) -> (r: u64)
    requires
        estimate(state.graph()) <= u64::MAX,
    ensures
        r == estimate(state.graph()),
{
    state.estimate_bytes()
}

/// Pruning never makes the state larger: along a cycle's removals the
/// estimate never rises.
pub proof fn law_pruning_never_grows_the_estimate(gs: Seq<Graph>, order: Seq<Seq<u8>>, over: bool, max_bytes: u64)
    requires
        prune_trace(gs, order, over, max_bytes),
        graph_finite(gs[0]),
    ensures
        forall|i: int| 0 <= i < gs.len() ==> estimate(#[trigger] gs[i]) <= estimate(gs[0]),
{
    assert forall|i: int| 0 <= i < gs.len() implies estimate(#[trigger] gs[i]) <= estimate(gs[0]) && graph_finite(gs[i]) by {
        lemma_trace_prefix(gs, order, i);
    }
}

proof fn lemma_trace_prefix(gs: Seq<Graph>, order: Seq<Seq<u8>>, i: int)
    requires
        1 <= gs.len() <= order.len() + 1,
        forall|k: int| 0 <= k < gs.len() - 1 ==> #[trigger] remove_graph(gs[k], order[k]) == gs[k + 1],
        graph_finite(gs[0]),
        0 <= i < gs.len(),
    ensures
        estimate(gs[i]) <= estimate(gs[0]),
        graph_finite(gs[i]),
    decreases i,
{
    if i > 0 {
        lemma_trace_prefix(gs, order, i - 1);
        lemma_remove_estimate(gs[i - 1], order[i - 1]);
        assert(remove_graph(gs[i - 1], order[i - 1]) == gs[i]);
    }
}

} // verus!
