//! The graph state of the cybergraph: particles, axons, neurons, public
//! balances, private commitments and spent nullifiers, intents and signal
//! records. Inserting a signal is the one operation that changes the graph;
//! the only structural check is that no nullifier is spent twice.
use crate::bytes::{append_bytes, bytes_equal, copy_bytes, le64, push_be64, push_le64};
use crate::hash::{hemera_digest, hemera_hash};
use crate::ordered::OrderedMap;
use crate::signal::{Cyberlink, InsertError, Signal, UtxoMove};
use crate::stats::GraphStats;
use crate::storage::access::FIELD_MODULUS;
use crate::types::{
    CardRecord, CoinRecord, FileRecord, IntentRecord, LocationRecord, NeuronId, NeuronRecord, Particle,
    ParticleRecord, SignalRecord,
};
use vstd::prelude::*;

pub mod dim;
pub mod records;

verus! {

/// Blocks per epoch; pruning runs at epoch boundaries.
pub const EPOCH_BLOCKS: u64 = 100;

/// The axon-particle of a link from `from` to `to`: the digest of both.
pub open spec fn axon_key(from: Seq<u8>, to: Seq<u8>) -> Seq<u8> {
    hemera_digest(from + to)
}

/// The public balance slot of `owner` in `token`: the digest of both.
pub open spec fn balance_slot(owner: Seq<u8>, token: Seq<u8>) -> Seq<u8> {
    hemera_digest(owner + token)
}

/// The slot of an intent: the digest of its neuron, inception height and scope.
pub open spec fn intent_slot(neuron: Seq<u8>, h0: u64, scope: Seq<u8>) -> Seq<u8> {
    hemera_digest(neuron + le64(h0) + scope)
}

/// A field element in canonical form.
pub open spec fn canonical(v: u64) -> u64 {
    if v >= FIELD_MODULUS {
        (v - FIELD_MODULUS) as u64
    } else {
        v
    }
}

/// The parts of the state that cyberlinks change.
pub struct Graph {
    pub particles: Map<Seq<u8>, ParticleRecord>,
    pub axons_out: Map<Seq<u8>, Seq<Seq<u8>>>,
    pub axons_in: Map<Seq<u8>, Seq<Seq<u8>>>,
    pub neurons: Map<Seq<u8>, NeuronRecord>,
    pub balances: Map<Seq<u8>, u64>,
    pub edges: Map<Seq<u8>, (Seq<u8>, Seq<u8>)>,
}

/// A particle record with `weight` raised by `amount`, saturating; a fresh
/// record where there was none.
pub open spec fn with_weight(m: Map<Seq<u8>, ParticleRecord>, k: Seq<u8>, amount: u64) -> ParticleRecord {
    if m.dom().contains(k) {
        ParticleRecord {
            energy: m[k].energy,
            pi_star: m[k].pi_star,
            weight: m[k].weight.saturating_add(amount),
            s_yes: m[k].s_yes,
            s_no: m[k].s_no,
            meta_score: m[k].meta_score,
        }
    } else {
        ParticleRecord { energy: 0, pi_star: 0, weight: amount, s_yes: 0, s_no: 0, meta_score: 0 }
    }
}

/// A particle record with `energy` raised by `amount`, saturating; a fresh
/// record where there was none.
pub open spec fn with_energy(m: Map<Seq<u8>, ParticleRecord>, k: Seq<u8>, amount: u64) -> ParticleRecord {
    if m.dom().contains(k) {
        ParticleRecord {
            energy: m[k].energy.saturating_add(amount),
            pi_star: m[k].pi_star,
            weight: m[k].weight,
            s_yes: m[k].s_yes,
            s_no: m[k].s_no,
            meta_score: m[k].meta_score,
        }
    } else {
        ParticleRecord { energy: amount, pi_star: 0, weight: 0, s_yes: 0, s_no: 0, meta_score: 0 }
    }
}

/// An adjacency list of `k` with `a` added unless it is already there.
pub open spec fn with_axon(m: Map<Seq<u8>, Seq<Seq<u8>>>, k: Seq<u8>, a: Seq<u8>) -> Seq<Seq<u8>> {
    let list = if m.dom().contains(k) {
        m[k]
    } else {
        Seq::empty()
    };
    if list.contains(a) {
        list
    } else {
        list.push(a)
    }
}

pub open spec fn balance_of(m: Map<Seq<u8>, u64>, k: Seq<u8>) -> u64 {
    if m.dom().contains(k) {
        m[k]
    } else {
        0
    }
}

/// The graph after one cyberlink of `neuron`: the axon's weight and the
/// target's energy rise by the amount, the axon joins both adjacency lists
/// and the edge index, the neuron's focus falls by it, and the amount moves
/// from the source's balance in the token to the target's. `None` where the
/// target's balance would overflow.
pub open spec fn link_step(g: Graph, neuron: Seq<u8>, l: Cyberlink) -> Option<Graph> {
    let from = l.from@;
    let to = l.to@;
    let aid = axon_key(from, to);
    let p1 = g.particles.insert(aid, with_weight(g.particles, aid, l.amount));
    let p2 = p1.insert(to, with_energy(p1, to, l.amount));
    let neurons = if g.neurons.dom().contains(neuron) {
        g.neurons.insert(
            neuron,
            NeuronRecord {
                focus: g.neurons[neuron].focus.saturating_sub(l.amount),
                karma: g.neurons[neuron].karma,
                stake: g.neurons[neuron].stake,
            },
        )
    } else {
        g.neurons
    };
    let edges = if g.edges.dom().contains(aid) {
        g.edges
    } else {
        g.edges.insert(aid, (from, to))
    };
    let tk = balance_slot(to, l.token@);
    let bt = balance_of(g.balances, tk);
    if bt + l.amount > u64::MAX {
        None
    } else {
        let b1 = g.balances.insert(tk, (bt + l.amount) as u64);
        let fk = balance_slot(from, l.token@);
        let b2 = b1.insert(fk, balance_of(b1, fk).saturating_sub(l.amount));
        Some(
            Graph {
                particles: p2,
                axons_out: g.axons_out.insert(from, with_axon(g.axons_out, from, aid)),
                axons_in: g.axons_in.insert(to, with_axon(g.axons_in, to, aid)),
                neurons,
                balances: b2,
                edges,
            },
        )
    }
}

/// The graph after `links` in order, or `None` where a balance would overflow.
pub open spec fn apply_links(g: Graph, neuron: Seq<u8>, links: Seq<Cyberlink>) -> Option<Graph>
    decreases links.len(),
{
    if links.len() == 0 {
        Some(g)
    } else {
        match apply_links(g, neuron, links.drop_last()) {
            None => None,
            Some(g1) => link_step(g1, neuron, links.last()),
        }
    }
}

/// Balances with the updates `ov` laid over them, later updates last.
pub open spec fn balances_over(base: Map<Seq<u8>, u64>, ov: Seq<([u8; 32], u64)>) -> Map<Seq<u8>, u64>
    decreases ov.len(),
{
    if ov.len() == 0 {
        base
    } else {
        balances_over(base, ov.drop_last()).insert(ov.last().0@, ov.last().1)
    }
}

/// Links that fail at some point fail whatever follows them.
pub proof fn lemma_links_fail_on(g: Graph, neuron: Seq<u8>, links: Seq<Cyberlink>, i: int)
    requires
        0 <= i <= links.len(),
        apply_links(g, neuron, links.take(i)) is None,
    ensures
        apply_links(g, neuron, links) is None,
    decreases links.len() - i,
{
    if i < links.len() {
        assert(links.take(i + 1).drop_last() =~= links.take(i));
        lemma_links_fail_on(g, neuron, links, i + 1);
    } else {
        assert(links.take(i) =~= links);
    }
}

/// Whether a move spends a nullifier that is already spent.
pub open spec fn double_spent(spent: Set<Seq<u8>>, moves: Seq<UtxoMove>) -> bool {
    exists|i: int| 0 <= i < moves.len() && spent.contains(#[trigger] moves[i].nullifier@)
}

/// The spent nullifiers after `moves`.
pub open spec fn spend(spent: Set<Seq<u8>>, moves: Seq<UtxoMove>) -> Set<Seq<u8>>
    decreases moves.len(),
{
    if moves.len() == 0 {
        spent
    } else {
        spend(spent, moves.drop_last()).insert(moves.last().nullifier@)
    }
}

/// The private commitments after `moves`: each created output at its point,
/// its value in canonical form.
pub open spec fn commit_moves(c: Map<Seq<u8>, u64>, moves: Seq<UtxoMove>) -> Map<Seq<u8>, u64>
    decreases moves.len(),
{
    if moves.len() == 0 {
        c
    } else {
        let prev = commit_moves(c, moves.drop_last());
        match moves.last().commitment {
            Some((point, value)) => prev.insert(point@, canonical(value)),
            None => prev,
        }
    }
}

pub open spec fn lists_of(m: Map<Seq<u8>, Vec<Particle>>) -> Map<Seq<u8>, Seq<Seq<u8>>> {
    m.map_values(|v: Vec<Particle>| v@.map_values(|p: Particle| p@))
}

pub open spec fn edges_of(m: Map<Seq<u8>, (Particle, Particle)>) -> Map<Seq<u8>, (Seq<u8>, Seq<u8>)> {
    m.map_values(|e: (Particle, Particle)| (e.0@, e.1@))
}

/// The digest of two 32-byte values, as the state keys axons and balances.
pub fn pair_key(a: &[u8; 32], b: &[u8; 32]) -> (r: [u8; 32])
    ensures
        r@ == hemera_digest(a@ + b@),
{
    let mut buf: Vec<u8> = Vec::new();
    append_bytes(&mut buf, a);
    append_bytes(&mut buf, b);
    proof {
        assert(buf@ =~= a@ + b@);
    }
    hemera_hash(buf.as_slice())
}

/// The axon-particle id of a link: H(from ‖ to).
pub fn axon_id(from: &Particle, to: &Particle) -> (r: Particle)
    ensures
        r@ == axon_key(from@, to@),
{
    pair_key(from, to)
}

/// The public balance key: H(owner ‖ token).
pub fn balance_key(owner: &[u8; 32], token: &[u8; 32]) -> (r: [u8; 32])
    ensures
        r@ == balance_slot(owner@, token@),
{
    pair_key(owner, token)
}

/// The intent key: H(ν ‖ h0 ‖ scope_hash).
pub fn intent_key(neuron: &NeuronId, h0: u64, scope_hash: &Particle) -> (r: Particle)
    ensures
        r@ == intent_slot(neuron@, h0, scope_hash@),
{
    let mut buf: Vec<u8> = Vec::new();
    append_bytes(&mut buf, neuron);
    push_le64(&mut buf, h0);
    append_bytes(&mut buf, scope_hash);
    proof {
        assert(buf@ =~= neuron@ + le64(h0) + scope_hash@);
    }
    hemera_hash(buf.as_slice())
}

pub open spec fn particles_view(list: Seq<Particle>) -> Seq<Seq<u8>> {
    list.map_values(|p: Particle| p@)
}

/// Whether `list` holds `a`.
fn list_contains(list: &Vec<Particle>, a: &Particle) -> (r: bool)
    ensures
        r == particles_view(list@).contains(a@),
{
    let mut i: usize = 0;
    while i < list.len()
        invariant
            i <= list@.len(),
            forall|j: int| 0 <= j < i ==> particles_view(list@)[j] != a@,
        decreases list@.len() - i,
    {
        if bytes_equal(&list[i], a) {
            proof {
                assert(particles_view(list@)[i as int] == a@);
            }
            return true;
        }
        i = i + 1;
    }
    false
}

fn copy_particles(list: &Vec<Particle>) -> (out: Vec<Particle>)
    ensures
        out@ == list@,
{
    let mut out: Vec<Particle> = Vec::new();
    let mut i: usize = 0;
    while i < list.len()
        invariant
            i <= list@.len(),
            out@ =~= list@.take(i as int),
        decreases list@.len() - i,
    {
        out.push(list[i]);
        assert(list@.take(i + 1) =~= list@.take(i as int).push(list@[i as int]));
        i = i + 1;
    }
    assert(list@.take(i as int) =~= list@);
    out
}

/// Add `a` to the adjacency list of `key` unless it is there already.
fn add_to_list(m: &mut OrderedMap<Vec<Particle>>, key: &Particle, a: &Particle)
    ensures
        lists_of(final(m)@) == lists_of(old(m)@).insert(key@, with_axon(lists_of(old(m)@), key@, a@)),
{
    let ghost before = lists_of(m@);
    let mut list = match m.get(key) {
        Some(v) => copy_particles(v),
        None => Vec::new(),
    };
    proof {
        if !m@.dom().contains(key@) {
            assert(particles_view(list@) =~= Seq::<Seq<u8>>::empty());
        }
    }
    if !list_contains(&list, a) {
        let ghost l0 = list@;
        list.push(*a);
        proof {
            assert(particles_view(list@) =~= particles_view(l0).push(a@));
        }
    }
    let ghost lv = particles_view(list@);
    m.set(copy_bytes(key), list);
    proof {
        assert(lv == with_axon(before, key@, a@));
        assert(lists_of(m@) =~= before.insert(key@, lv));
    }
}

fn balance_or_zero(m: &OrderedMap<u64>, key: &[u8; 32]) -> (b: u64)
    ensures
        b == balance_of(m@, key@),
{
    match m.get(key) {
        Some(b) => *b,
        None => 0,
    }
}

fn weighted(m: &OrderedMap<ParticleRecord>, key: &Particle, amount: u64) -> (r: ParticleRecord)
    ensures
        r == with_weight(m@, key@, amount),
{
    match m.get(key) {
        Some(p) => ParticleRecord {
            energy: p.energy,
            pi_star: p.pi_star,
            weight: p.weight.saturating_add(amount),
            s_yes: p.s_yes,
            s_no: p.s_no,
            meta_score: p.meta_score,
        },
        None => ParticleRecord { energy: 0, pi_star: 0, weight: amount, s_yes: 0, s_no: 0, meta_score: 0 },
    }
}

fn energized(m: &OrderedMap<ParticleRecord>, key: &Particle, amount: u64) -> (r: ParticleRecord)
    ensures
        r == with_energy(m@, key@, amount),
{
    match m.get(key) {
        Some(p) => ParticleRecord {
            energy: p.energy.saturating_add(amount),
            pi_star: p.pi_star,
            weight: p.weight,
            s_yes: p.s_yes,
            s_no: p.s_no,
            meta_score: p.meta_score,
        },
        None => ParticleRecord { energy: amount, pi_star: 0, weight: 0, s_yes: 0, s_no: 0, meta_score: 0 },
    }
}

proof fn lemma_links_prefix(g: Graph, neuron: Seq<u8>, links: Seq<Cyberlink>, i: int)
    requires
        0 <= i <= links.len(),
        apply_links(g, neuron, links) is Some,
    ensures
        apply_links(g, neuron, links.take(i)) is Some,
    decreases links.len(),
{
    if i < links.len() {
        assert(links.drop_last().take(i) =~= links.take(i));
        lemma_links_prefix(g, neuron, links.drop_last(), i);
    } else {
        assert(links.take(i) =~= links);
    }
}

/// The longest list in `m`: every list is at most `d` long, and one list is
/// exactly `d` long unless `d` is zero.
pub open spec fn longest(m: Map<Seq<u8>, Seq<Seq<u8>>>, d: nat) -> bool {
    &&& forall|k: Seq<u8>| #[trigger] m.dom().contains(k) ==> m[k].len() <= d
    &&& d == 0 || exists|k: Seq<u8>| #[trigger] m.dom().contains(k) && m[k].len() == d
}

/// The longest list among the values of an ordered map of lists.
fn longest_list(m: &OrderedMap<Vec<Particle>>) -> (d: usize)
    ensures
        longest(lists_of(m@), d as nat),
{
    proof {
        use_type_invariant(m);
        m.lemma_wf();
    }
    let ghost e = m.entries();
    let mut d: usize = 0;
    let mut i: usize = 0;
    while i < m.len()
        invariant
            e == m.entries(),
            crate::ordered::unique(e),
            i <= e.len(),
            forall|j: int| 0 <= j < i ==> (#[trigger] e[j]).1@.len() <= d,
            d == 0 || exists|j: int| 0 <= j < i && (#[trigger] e[j]).1@.len() == d,
        decreases e.len() - i,
    {
        let (_, v) = m.entry(i);
        if v.len() > d {
            d = v.len();
        }
        i = i + 1;
    }
    proof {
        let l = lists_of(m@);
        assert forall|k: Seq<u8>| #[trigger] l.dom().contains(k) implies l[k].len() <= d by {
            crate::ordered::lemma_map_of_has_key(e, k);
            let j = choose|j: int| 0 <= j < e.len() && #[trigger] e[j].0 == k;
            crate::ordered::lemma_map_of_index(e, j);
        }
        if d != 0 {
            let j = choose|j: int| 0 <= j < i && (#[trigger] e[j]).1@.len() == d;
            crate::ordered::lemma_map_of_index(e, j);
            assert(l.dom().contains(e[j].0) && l[e[j].0].len() == d);
        }
    }
    d
}

fn count<V>(m: &OrderedMap<V>) -> (n: u64)
    ensures
        n == m@.dom().len(),
{
    proof {
        use_type_invariant(m);
        m.lemma_wf();
        crate::ordered::lemma_unique_len(m.entries());
    }
    m.len() as u64
}

/// Bytes that one adjacency list is estimated to take: its key and its entries.
pub open spec fn list_weight(l: Seq<Seq<u8>>) -> int {
    32 + 32 * (l.len() as int)
}

/// The estimated bytes of all adjacency lists of `m`.
pub open spec fn lists_weight(m: Map<Seq<u8>, Seq<Seq<u8>>>) -> int
    decreases m.dom().len(),
{
    if m.dom().finite() && m.dom().len() > 0 {
        let k = m.dom().choose();
        proof {
            vstd::set::axiom_set_choose_len(m.dom());
        }
        list_weight(m[k]) + lists_weight(m.remove(k))
    } else {
        0
    }
}

/// The estimated size of the graph in bytes: eighty per particle, the
/// adjacency lists both ways, fifty-six per neuron.
pub open spec fn estimate(g: Graph) -> int {
    80 * (g.particles.dom().len() as int) + lists_weight(g.axons_out) + lists_weight(g.axons_in) + 56 * (g.neurons.dom().len() as int)
}

/// The graph maps are finite.
pub open spec fn graph_finite(g: Graph) -> bool {
    &&& g.particles.dom().finite()
    &&& g.axons_out.dom().finite()
    &&& g.axons_in.dom().finite()
    &&& g.neurons.dom().finite()
    &&& g.balances.dom().finite()
    &&& g.edges.dom().finite()
}

pub proof fn lemma_lists_weight_nonneg(m: Map<Seq<u8>, Seq<Seq<u8>>>)
    ensures
        lists_weight(m) >= 0,
    decreases m.dom().len(),
{
    if m.dom().finite() && m.dom().len() > 0 {
        let k = m.dom().choose();
        vstd::set::axiom_set_choose_len(m.dom());
        lemma_lists_weight_nonneg(m.remove(k));
    }
}

/// The weight of a map is the weight of any one list plus the rest.
pub proof fn lemma_lists_weight_remove(m: Map<Seq<u8>, Seq<Seq<u8>>>, k: Seq<u8>)
    requires
        m.dom().finite(),
        m.dom().contains(k),
    ensures
        lists_weight(m) == list_weight(m[k]) + lists_weight(m.remove(k)),
    decreases m.dom().len(),
{
    let c = m.dom().choose();
    vstd::set::axiom_set_choose_len(m.dom());
    if c != k {
        lemma_lists_weight_remove(m.remove(c), k);
        lemma_lists_weight_remove(m.remove(k), c);
        assert(m.remove(c).remove(k) =~= m.remove(k).remove(c));
    }
}

/// `l` without any occurrence of `a`.
pub open spec fn without(l: Seq<Seq<u8>>, a: Seq<u8>) -> Seq<Seq<u8>>
    decreases l.len(),
{
    if l.len() == 0 {
        l
    } else if l.last() == a {
        without(l.drop_last(), a)
    } else {
        without(l.drop_last(), a).push(l.last())
    }
}

proof fn lemma_without_len(l: Seq<Seq<u8>>, a: Seq<u8>)
    ensures
        without(l, a).len() <= l.len(),
    decreases l.len(),
{
    if l.len() > 0 {
        lemma_without_len(l.drop_last(), a);
    }
}

/// Drop `a` from the list of `k`, and the list itself once it is empty.
pub open spec fn drop_axon(m: Map<Seq<u8>, Seq<Seq<u8>>>, k: Seq<u8>, a: Seq<u8>) -> Map<Seq<u8>, Seq<Seq<u8>>> {
    if m.dom().contains(k) {
        if without(m[k], a).len() == 0 {
            m.remove(k)
        } else {
            m.insert(k, without(m[k], a))
        }
    } else {
        m
    }
}

/// The graph without axon `id`: its particle, its edge, and its place in the
/// adjacency lists of its endpoints.
pub open spec fn remove_graph(g: Graph, id: Seq<u8>) -> Graph {
    if g.edges.dom().contains(id) {
        Graph {
            particles: g.particles.remove(id),
            axons_out: drop_axon(g.axons_out, g.edges[id].0, id),
            axons_in: drop_axon(g.axons_in, g.edges[id].1, id),
            neurons: g.neurons,
            balances: g.balances,
            edges: g.edges.remove(id),
        }
    } else {
        Graph { particles: g.particles.remove(id), ..g }
    }
}

proof fn lemma_drop_axon_weight(m: Map<Seq<u8>, Seq<Seq<u8>>>, k: Seq<u8>, a: Seq<u8>)
    requires
        m.dom().finite(),
    ensures
        lists_weight(drop_axon(m, k, a)) <= lists_weight(m),
        drop_axon(m, k, a).dom().finite(),
{
    if m.dom().contains(k) {
        lemma_lists_weight_remove(m, k);
        lemma_without_len(m[k], a);
        if without(m[k], a).len() != 0 {
            let n = m.insert(k, without(m[k], a));
            lemma_lists_weight_remove(n, k);
            assert(n.remove(k) =~= m.remove(k));
        } else {
            lemma_lists_weight_nonneg(m.remove(k));
        }
    }
}

/// Removing an axon never raises the estimate.
pub proof fn lemma_remove_estimate(g: Graph, id: Seq<u8>)
    requires
        graph_finite(g),
    ensures
        estimate(remove_graph(g, id)) <= estimate(g),
        graph_finite(remove_graph(g, id)),
{
    if g.edges.dom().contains(id) {
        lemma_drop_axon_weight(g.axons_out, g.edges[id].0, id);
        lemma_drop_axon_weight(g.axons_in, g.edges[id].1, id);
    }
    if g.particles.dom().contains(id) {
        assert(g.particles.remove(id).dom().len() == g.particles.dom().len() - 1);
    } else {
        assert(g.particles.remove(id).dom() =~= g.particles.dom());
    }
}

/// The estimated bytes of ordered adjacency lists, entry by entry.
pub open spec fn entries_weight(e: Seq<(Seq<u8>, Vec<Particle>)>) -> int
    decreases e.len(),
{
    if e.len() == 0 {
        0
    } else {
        entries_weight(e.drop_last()) + list_weight(particles_view(e.last().1@))
    }
}

#[verifier::spinoff_prover]
proof fn lemma_entries_weight(e: Seq<(Seq<u8>, Vec<Particle>)>)
    requires
        crate::ordered::unique(e),
    ensures
        entries_weight(e) == lists_weight(lists_of(crate::ordered::map_of(e))),
        entries_weight(e) >= 0,
    decreases e.len(),
{
    crate::ordered::lemma_map_of_finite(e);
    if e.len() > 0 {
        let d = e.drop_last();
        assert(crate::ordered::unique(d)) by {
            assert forall|i: int, j: int| 0 <= i < j < d.len() implies #[trigger] d[i].0 != #[trigger] d[j].0 by {
                assert(d[i] == e[i] && d[j] == e[j]);
            }
        }
        lemma_entries_weight(d);
        crate::ordered::lemma_map_of_finite(d);
        let k = e.last().0;
        assert forall|i: int| 0 <= i < d.len() implies #[trigger] d[i].0 != k by {
            assert(d[i] == e[i]);
            assert(e[e.len() - 1].0 == k);
        }
        crate::ordered::lemma_map_of_absent(d, k);
        let m = lists_of(crate::ordered::map_of(e));
        assert(m.dom() =~= crate::ordered::map_of(e).dom());
        assert(m.dom().contains(k));
        assert(crate::ordered::map_of(e)[k] == e.last().1);
        assert(m[k] == particles_view(e.last().1@));
        lemma_lists_weight_remove(m, k);
        assert(m.remove(k) =~= lists_of(crate::ordered::map_of(d)));
    }
}

proof fn lemma_entries_weight_prefix(e: Seq<(Seq<u8>, Vec<Particle>)>, i: int)
    requires
        0 <= i <= e.len(),
    ensures
        entries_weight(e.take(i)) <= entries_weight(e),
        entries_weight(e.take(i)) >= 0,
    decreases e.len(),
{
    if i < e.len() {
        lemma_entries_weight_prefix(e.drop_last(), i);
        assert(e.drop_last().take(i) =~= e.take(i));
    } else {
        assert(e.take(i) =~= e);
        lemma_entries_weight_nonneg(e);
    }
}

proof fn lemma_entries_weight_nonneg(e: Seq<(Seq<u8>, Vec<Particle>)>)
    ensures
        entries_weight(e) >= 0,
    decreases e.len(),
{
    if e.len() > 0 {
        lemma_entries_weight_nonneg(e.drop_last());
    }
}

/// The estimated bytes of the adjacency lists of `m`.
fn lists_bytes(m: &OrderedMap<Vec<Particle>>) -> (r: u64)
    requires
        lists_weight(lists_of(m@)) <= u64::MAX,
    ensures
        r == lists_weight(lists_of(m@)),
{
    proof {
        use_type_invariant(m);
        m.lemma_wf();
        lemma_entries_weight(m.entries());
    }
    let ghost e = m.entries();
    let mut total: u64 = 0;
    let mut i: usize = 0;
    while i < m.len()
        invariant
            e == m.entries(),
            i <= e.len(),
            total == entries_weight(e.take(i as int)),
            entries_weight(e) <= u64::MAX,
        decreases e.len() - i,
    {
        let (_, v) = m.entry(i);
        proof {
            assert(e.take(i + 1).drop_last() =~= e.take(i as int));
            assert(e.take(i + 1).last() == e[i as int]);
            lemma_entries_weight_prefix(e, i + 1);
            lemma_entries_weight_prefix(e, i as int);
        }
        total = total + 32 + 32 * (v.len() as u64);
        i = i + 1;
    }
    proof {
        assert(e.take(i as int) =~= e);
    }
    total
}

/// `list` without any occurrence of `a`.
fn filter_out(list: &Vec<Particle>, a: &[u8]) -> (out: Vec<Particle>)
    ensures
        particles_view(out@) == without(particles_view(list@), a@),
{
    let mut out: Vec<Particle> = Vec::new();
    let mut i: usize = 0;
    while i < list.len()
        invariant
            i <= list@.len(),
            particles_view(out@) == without(particles_view(list@).take(i as int), a@),
        decreases list@.len() - i,
    {
        let ghost before = particles_view(out@);
        proof {
            let t = particles_view(list@).take(i + 1);
            assert(t.drop_last() =~= particles_view(list@).take(i as int));
            assert(t.last() == list@[i as int]@);
        }
        if !bytes_equal(&list[i], a) {
            out.push(list[i]);
            proof {
                assert(particles_view(out@) =~= before.push(list@[i as int]@));
            }
        }
        i = i + 1;
    }
    proof {
        assert(particles_view(list@).take(i as int) =~= particles_view(list@));
    }
    out
}

/// Drop `a` from the list of `key`, and the list once it is empty.
fn drop_from_list(m: &mut OrderedMap<Vec<Particle>>, key: &Particle, a: &[u8])
    ensures
        lists_of(final(m)@) == drop_axon(lists_of(old(m)@), key@, a@),
{
    let ghost before = lists_of(m@);
    let filtered = match m.get(key) {
        Some(list) => Some(filter_out(list, a)),
        None => None,
    };
    match filtered {
        Some(l) => {
            if l.len() == 0 {
                m.remove(key);
                proof {
                    assert(lists_of(m@) =~= before.remove(key@));
                }
            } else {
                let ghost lv = particles_view(l@);
                m.set(copy_bytes(key), l);
                proof {
                    assert(lists_of(m@) =~= before.insert(key@, lv));
                }
            }
        },
        None => {},
    }
}

/// Calls `slice::sort_unstable` on `u64`s, which std documents as sorting the
/// slice in ascending order: the result is an ascending permutation.
#[verifier::external_body]
fn sort_values(v: &mut Vec<u64>)
    ensures
        final(v)@.to_multiset() == old(v)@.to_multiset(),
        vstd::relations::sorted_by(final(v)@, |x: u64, y: u64| x <= y),
{
    v.sort_unstable();
}

/// The index of the rank floor among `n` ascending scores when the top
/// `pct` percent, rounded up, are protected.
pub open spec fn floor_index(n: nat, pct: u8) -> int {
    let protected = (n * pct + 99) / 100;
    if n >= protected {
        n - protected
    } else {
        0
    }
}

/// The pi-star threshold below which entries may be pruned: none protected
/// at zero percent, otherwise the score at the floor index in ascending order.
pub open spec fn rank_floor_spec(scores: Seq<u64>, pct: u8) -> u64 {
    if pct == 0 {
        u64::MAX
    } else if scores.len() == 0 {
        0
    } else {
        scores.sort_by(|x: u64, y: u64| x <= y)[floor_index(scores.len(), pct)]
    }
}

/// Filtering commutes with forgetting the order.
proof fn lemma_filter_multiset(s: Seq<u64>, p: spec_fn(u64) -> bool)
    ensures
        s.filter(p).to_multiset() =~= s.to_multiset().filter(p),
    decreases s.len(),
{
    broadcast use vstd::seq_lib::group_to_multiset_ensures, vstd::multiset::group_multiset_axioms;

    if s.len() == 0 {
        s.filter_lemma(p);
        assert(s.filter(p) =~= Seq::<u64>::empty());
        assert(s =~= Seq::<u64>::empty());
    } else {
        let t = s.drop_last();
        let x = s.last();
        lemma_filter_multiset(t, p);
        assert(s =~= t.push(x));
        t.lemma_filter_push(x, p);
    }
}

/// Two orderings of the same scores have as many scores that satisfy `p`.
proof fn lemma_filter_len_perm(a: Seq<u64>, b: Seq<u64>, p: spec_fn(u64) -> bool)
    requires
        a.to_multiset() == b.to_multiset(),
    ensures
        a.filter(p).len() == b.filter(p).len(),
{
    broadcast use vstd::seq_lib::group_to_multiset_ensures;

    lemma_filter_multiset(a, p);
    lemma_filter_multiset(b, p);
    assert(a.filter(p).len() == a.filter(p).to_multiset().len());
    assert(b.filter(p).len() == b.filter(p).to_multiset().len());
}

/// Where every element satisfies `p`, filtering keeps them all.
proof fn lemma_filter_all(s: Seq<u64>, p: spec_fn(u64) -> bool)
    requires
        forall|i: int| 0 <= i < s.len() ==> p(#[trigger] s[i]),
    ensures
        s.filter(p) == s,
    decreases s.len(),
{
    if s.len() == 0 {
        s.filter_lemma(p);
        assert(s.filter(p) =~= s);
    } else {
        let t = s.drop_last();
        lemma_filter_all(t, p);
        assert(s =~= t.push(s.last()));
        t.lemma_filter_push(s.last(), p);
    }
}

/// The rank floor protects exactly the top `pct` percent: for a percentage
/// from 1 to 100 and at least one score, the floor is one of the scores, at
/// least `ceil(n * pct / 100)` scores lie at or above it, and fewer than that
/// lie strictly above it; so with ten distinct scores and 20 percent the
/// floor is the second highest.
pub proof fn law_rank_floor_protects_top_percent(scores: Seq<u64>, pct: u8)
    requires
        1 <= pct <= 100,
        scores.len() > 0,
    ensures
        ({
            let r = rank_floor_spec(scores, pct);
            let protected = (scores.len() * pct + 99) / 100;
            &&& scores.contains(r)
            &&& scores.filter(|x: u64| x >= r).len() >= protected
            &&& scores.filter(|x: u64| x > r).len() < protected
        }),
{
    let leq = |x: u64, y: u64| x <= y;
    let n = scores.len();
    let s = scores.sort_by(leq);
    let protected = (n * pct + 99) / 100;
    assert(vstd::relations::total_ordering(leq));
    scores.lemma_sort_by_ensures(leq);
    broadcast use vstd::seq_lib::group_to_multiset_ensures;

    assert(s.len() == n) by {
        assert(s.to_multiset().len() == scores.to_multiset().len());
    }
    assert(1 <= protected <= n) by (nonlinear_arith)
        requires
            protected == (n * pct + 99) / 100,
            1 <= pct <= 100,
            n >= 1,
    ;
    let k = n - protected;
    assert(floor_index(n, pct) == k);
    let r = s[k];
    assert(rank_floor_spec(scores, pct) == r);
    // The floor is a score.
    assert(s.contains(r));
    assert(scores.contains(r));
    // At least `protected` scores are at or above it.
    let ge = |x: u64| x >= r;
    let gt = |x: u64| x > r;
    assert(s =~= s.take(k) + s.skip(k));
    Seq::filter_distributes_over_add(s.take(k), s.skip(k), ge);
    assert forall|i: int| 0 <= i < s.skip(k).len() implies ge(#[trigger] s.skip(k)[i]) by {
        if i > 0 {
            assert(leq(s[k], s[k + i]));
        }
    }
    lemma_filter_all(s.skip(k), ge);
    assert(s.filter(ge).len() >= protected);
    lemma_filter_len_perm(scores, s, ge);
    // Fewer than `protected` are strictly above it.
    assert(s =~= s.take(k + 1) + s.skip(k + 1));
    Seq::filter_distributes_over_add(s.take(k + 1), s.skip(k + 1), gt);
    assert(s.take(k + 1).all(|x: u64| !gt(x))) by {
        assert forall|i: int| 0 <= i < s.take(k + 1).len() implies !gt(#[trigger] s.take(k + 1)[i]) by {
            if i < k {
                assert(leq(s[i], s[k]));
            }
        }
    }
    s.take(k + 1).lemma_all_neg_filter_empty(gt);
    s.skip(k + 1).filter_lemma(gt);
    assert(s.filter(gt).len() < protected);
    lemma_filter_len_perm(scores, s, gt);
}

/// At the edges the rank floor protects nothing or everything: at zero
/// percent it is the largest value, which every score lies below; with no
/// scores it is zero; above 100 percent it is the smallest score, so every
/// score lies at or above it.
pub proof fn law_rank_floor_edges(scores: Seq<u64>, pct: u8)
    ensures
        pct == 0 ==> rank_floor_spec(scores, pct) == u64::MAX,
        pct > 0 && scores.len() == 0 ==> rank_floor_spec(scores, pct) == 0,
        pct > 100 && scores.len() > 0 ==> scores.contains(rank_floor_spec(scores, pct)) && forall|i: int|
            0 <= i < scores.len() ==> #[trigger] scores[i] >= rank_floor_spec(scores, pct),
{
    if pct > 100 && scores.len() > 0 {
        let leq = |x: u64, y: u64| x <= y;
        let n = scores.len();
        let s = scores.sort_by(leq);
        assert(vstd::relations::total_ordering(leq));
        scores.lemma_sort_by_ensures(leq);
        broadcast use vstd::seq_lib::group_to_multiset_ensures;

        assert(s.len() == n) by {
            assert(s.to_multiset().len() == scores.to_multiset().len());
        }
        assert((n * pct + 99) / 100 > n) by (nonlinear_arith)
            requires
                pct >= 101,
                n >= 1,
        ;
        assert(floor_index(n, pct) == 0);
        assert(s.contains(s[0]));
        assert forall|i: int| 0 <= i < scores.len() implies #[trigger] scores[i] >= rank_floor_spec(scores, pct) by {
            assert(scores.contains(scores[i]));
            assert(s.to_multiset().count(scores[i]) > 0);
            let j = choose|j: int| 0 <= j < s.len() && s[j] == scores[i];
            if j > 0 {
                assert(leq(s[0], s[j]));
            }
        }
    }
}

/// The weight of `id` in `g`; zero where it has no record.
pub open spec fn weight_of(g: Graph, id: Seq<u8>) -> u64 {
    if g.particles.dom().contains(id) {
        g.particles[id].weight
    } else {
        0
    }
}

/// The pi-star of `id` in `g`; zero where it has no record.
pub open spec fn pi_of(g: Graph, id: Seq<u8>) -> u64 {
    if g.particles.dom().contains(id) {
        g.particles[id].pi_star
    } else {
        0
    }
}

/// Whether `id` competes for removal in a pruning cycle: over budget, every
/// particle below the floor; otherwise every touched entry below the floor
/// whose last touch is more than `half_life` epochs old.
pub open spec fn candidate(
    g: Graph,
    touched: Map<Seq<u8>, u64>,
    floor: u64,
    over: bool,
    epoch: u64,
    half_life: u64,
    id: Seq<u8>,
) -> bool {
    if over {
        g.particles.dom().contains(id) && g.particles[id].pi_star < floor
    } else {
        touched.dom().contains(id) && pi_of(g, id) < floor && epoch.saturating_sub(touched[id]) > half_life
    }
}

/// A nullifier spent by an inserted signal refuses every later signal that
/// spends it again.
pub proof fn law_spent_nullifiers_are_refused(
    spent: Set<Seq<u8>>,
    moves: Seq<UtxoMove>,
    again: Seq<UtxoMove>,
    i: int,
    j: int,
)
    requires
        0 <= i < moves.len(),
        0 <= j < again.len(),
        again[j].nullifier == moves[i].nullifier,
    ensures
        double_spent(spend(spent, moves), again),
{
    lemma_spend_contains(spent, moves, i);
}

proof fn lemma_spend_contains(spent: Set<Seq<u8>>, moves: Seq<UtxoMove>, i: int)
    requires
        0 <= i < moves.len(),
    ensures
        spend(spent, moves).contains(moves[i].nullifier@),
    decreases moves.len(),
{
    if i < moves.len() - 1 {
        lemma_spend_contains(spent, moves.drop_last(), i);
        assert(moves.drop_last()[i] == moves[i]);
    }
}

/// A cyberlink puts its axon into the graph: the axon-particle exists, it is
/// in the adjacency lists of both endpoints, and its edge is indexed.
pub proof fn law_link_joins_the_graph(g: Graph, neuron: Seq<u8>, l: Cyberlink)
    requires
        link_step(g, neuron, l) is Some,
    ensures
        ({
            let g1 = link_step(g, neuron, l)->Some_0;
            let aid = axon_key(l.from@, l.to@);
            &&& g1.particles.dom().contains(aid)
            &&& g1.axons_out.dom().contains(l.from@) && g1.axons_out[l.from@].contains(aid)
            &&& g1.axons_in.dom().contains(l.to@) && g1.axons_in[l.to@].contains(aid)
            &&& g1.edges.dom().contains(aid)
        }),
{
    let aid = axon_key(l.from@, l.to@);
    let out = with_axon(g.axons_out, l.from@, aid);
    let inn = with_axon(g.axons_in, l.to@, aid);
    let lo = if g.axons_out.dom().contains(l.from@) { g.axons_out[l.from@] } else { Seq::empty() };
    let li = if g.axons_in.dom().contains(l.to@) { g.axons_in[l.to@] } else { Seq::empty() };
    if !lo.contains(aid) {
        assert(lo.push(aid)[lo.len() as int] == aid);
    }
    if !li.contains(aid) {
        assert(li.push(aid)[li.len() as int] == aid);
    }
}

/// The full graph state. Time snapshots and signal records are keyed by the
/// big-endian bytes of their height and step, so that they sort by number.
pub struct BbgState {
    particles: OrderedMap<ParticleRecord>,
    axons_out: OrderedMap<Vec<Particle>>,
    axons_in: OrderedMap<Vec<Particle>>,
    neurons: OrderedMap<NeuronRecord>,
    locations: OrderedMap<LocationRecord>,
    coins: OrderedMap<CoinRecord>,
    cards: OrderedMap<CardRecord>,
    files: OrderedMap<FileRecord>,
    time: OrderedMap<Particle>,
    signals: OrderedMap<SignalRecord>,
    commitments: OrderedMap<u64>,
    nullifiers: OrderedMap<bool>,
    balances: OrderedMap<u64>,
    intents: OrderedMap<IntentRecord>,
    axon_edges: OrderedMap<(Particle, Particle)>,
    diameter_override: Option<u64>,
    height: u64,
}

impl BbgState {
    /// The parts that cyberlinks change.
    pub closed spec fn graph(&self) -> Graph {
        Graph {
            particles: self.particles@,
            axons_out: lists_of(self.axons_out@),
            axons_in: lists_of(self.axons_in@),
            neurons: self.neurons@,
            balances: self.balances@,
            edges: edges_of(self.axon_edges@),
        }
    }

    pub closed spec fn nullifiers_view(&self) -> Set<Seq<u8>> {
        self.nullifiers@.dom()
    }

    pub closed spec fn commitments_view(&self) -> Map<Seq<u8>, u64> {
        self.commitments@
    }

    pub closed spec fn intents_view(&self) -> Map<Seq<u8>, IntentRecord> {
        self.intents@
    }

    /// Signal records, by the big-endian bytes of their step.
    pub closed spec fn signals_view(&self) -> Map<Seq<u8>, SignalRecord> {
        self.signals@
    }

    /// Root snapshots, by the big-endian bytes of their height.
    pub closed spec fn time_view(&self) -> Map<Seq<u8>, Seq<u8>> {
        self.time@.map_values(|p: Particle| p@)
    }

    /// Locations, by particle.
    pub closed spec fn locations_view(&self) -> Map<Seq<u8>, LocationRecord> {
        self.locations@
    }

    /// Coins, by token.
    pub closed spec fn coins_view(&self) -> Map<Seq<u8>, CoinRecord> {
        self.coins@
    }

    /// Cards, by axon-particle.
    pub closed spec fn cards_view(&self) -> Map<Seq<u8>, CardRecord> {
        self.cards@
    }

    /// File availability, by particle.
    pub closed spec fn files_view(&self) -> Map<Seq<u8>, FileRecord> {
        self.files@
    }

    /// Entry counts of the dimensions that no operation here changes:
    /// locations, coins, cards, files.
    pub closed spec fn fixed_sizes(&self) -> (nat, nat, nat, nat) {
        (
            self.locations@.dom().len(),
            self.coins@.dom().len(),
            self.cards@.dom().len(),
            self.files@.dom().len(),
        )
    }

    pub closed spec fn diameter_override_view(&self) -> Option<u64> {
        self.diameter_override
    }

    pub closed spec fn height_view(&self) -> u64 {
        self.height
    }

    /// Apply one cyberlink of `neuron`; see [`link_step`].
    fn apply_link(&mut self, neuron: &NeuronId, l: &Cyberlink)
        requires
            link_step(old(self).graph(), neuron@, *l) is Some,
        ensures
            Some(final(self).graph()) == link_step(old(self).graph(), neuron@, *l),
            final(self).nullifiers_view() == old(self).nullifiers_view(),
            final(self).commitments_view() == old(self).commitments_view(),
            final(self).intents_view() == old(self).intents_view(),
            final(self).signals_view() == old(self).signals_view(),
            final(self).time_view() == old(self).time_view(),
            final(self).fixed_sizes() == old(self).fixed_sizes(),
            final(self).diameter_override_view() == old(self).diameter_override_view(),
            final(self).height_view() == old(self).height_view(),
    {
        let ghost g = self.graph();
        let aid = axon_id(&l.from, &l.to);
        let w = weighted(&self.particles, &aid, l.amount);
        self.particles.set(copy_bytes(&aid), w);
        let e = energized(&self.particles, &l.to, l.amount);
        self.particles.set(copy_bytes(&l.to), e);
        add_to_list(&mut self.axons_out, &l.from, &aid);
        add_to_list(&mut self.axons_in, &l.to, &aid);
        if self.axon_edges.get(&aid).is_none() {
            let ghost e0 = self.axon_edges@;
            self.axon_edges.set(copy_bytes(&aid), (l.from, l.to));
            proof {
                assert(edges_of(self.axon_edges@) =~= edges_of(e0).insert(aid@, (l.from@, l.to@)));
            }
        }
        match self.neurons.get(neuron) {
            Some(n) => {
                let updated = NeuronRecord { focus: n.focus.saturating_sub(l.amount), karma: n.karma, stake: n.stake };
                self.neurons.set(copy_bytes(neuron), updated);
            },
            None => {},
        }
        let tk = balance_key(&l.to, &l.token);
        let bt = balance_or_zero(&self.balances, &tk);
        self.balances.set(copy_bytes(&tk), bt + l.amount);
        let fk = balance_key(&l.from, &l.token);
        let bf = balance_or_zero(&self.balances, &fk);
        self.balances.set(copy_bytes(&fk), bf.saturating_sub(l.amount));
        proof {
            let next = link_step(g, neuron@, *l)->Some_0;
            assert(self.graph().particles =~= next.particles);
            assert(self.graph().balances =~= next.balances);
            assert(self.graph().neurons =~= next.neurons);
            assert(self.graph().edges =~= next.edges);
            assert(self.graph() == next);
        }
    }

    /// Spend every move's nullifier and record every created commitment.
    fn apply_moves(&mut self, moves: &Vec<UtxoMove>)
        ensures
            final(self).nullifiers_view() == spend(old(self).nullifiers_view(), moves@),
            final(self).commitments_view() == commit_moves(old(self).commitments_view(), moves@),
            final(self).graph() == old(self).graph(),
            final(self).intents_view() == old(self).intents_view(),
            final(self).signals_view() == old(self).signals_view(),
            final(self).time_view() == old(self).time_view(),
            final(self).fixed_sizes() == old(self).fixed_sizes(),
            final(self).diameter_override_view() == old(self).diameter_override_view(),
            final(self).height_view() == old(self).height_view(),
    {
        let mut i: usize = 0;
        proof {
            assert(moves@.take(0) =~= Seq::<UtxoMove>::empty());
        }
        while i < moves.len()
            invariant
                i <= moves@.len(),
                self.nullifiers_view() == spend(old(self).nullifiers_view(), moves@.take(i as int)),
                self.commitments_view() == commit_moves(old(self).commitments_view(), moves@.take(i as int)),
                self.graph() == old(self).graph(),
                self.intents_view() == old(self).intents_view(),
                self.signals_view() == old(self).signals_view(),
                self.time_view() == old(self).time_view(),
                self.fixed_sizes() == old(self).fixed_sizes(),
                self.diameter_override_view() == old(self).diameter_override_view(),
                self.height_view() == old(self).height_view(),
            decreases moves@.len() - i,
        {
            let mv = &moves[i];
            proof {
                assert(moves@.take(i + 1).drop_last() =~= moves@.take(i as int));
                assert(moves@.take(i + 1).last() == moves@[i as int]);
            }
            let ghost n0 = self.nullifiers@;
            self.nullifiers.set(copy_bytes(&mv.nullifier), true);
            proof {
                assert(self.nullifiers@.dom() =~= n0.dom().insert(mv.nullifier@));
            }
            match mv.commitment {
                Some((point, value)) => {
                    let v = if value >= FIELD_MODULUS {
                        value - FIELD_MODULUS
                    } else {
                        value
                    };
                    self.commitments.set(copy_bytes(&point), v);
                },
                None => {},
            }
            i = i + 1;
        }
        proof {
            assert(moves@.take(i as int) =~= moves@);
        }
    }

    /// The balance at `k` with the updates `ov` laid over the committed ones.
    fn balance_over(&self, ov: &Vec<([u8; 32], u64)>, k: &[u8; 32]) -> (r: u64)
        ensures
            r == balance_of(balances_over(self.graph().balances, ov@), k@),
    {
        let mut j: usize = ov.len();
        assert(ov@.take(j as int) =~= ov@);
        while j > 0
            invariant
                j <= ov@.len(),
                balance_of(balances_over(self.graph().balances, ov@), k@) == balance_of(
                    balances_over(self.graph().balances, ov@.take(j as int)),
                    k@,
                ),
            decreases j,
        {
            let (key, value) = ov[j - 1];
            proof {
                assert(ov@.take(j as int).drop_last() =~= ov@.take(j - 1));
                assert(ov@.take(j as int).last() == ov@[j - 1]);
            }
            if bytes_equal(&key, k) {
                return value;
            }
            j = j - 1;
        }
        proof {
            assert(ov@.take(0) =~= Seq::<([u8; 32], u64)>::empty());
        }
        match self.balances.get(k) {
            Some(v) => *v,
            None => 0,
        }
    }

    /// Whether every cyberlink of `signal` can be applied in order, that is,
    /// no balance that one credits overflows; `insert` requires it of a
    /// signal that spends no spent nullifier.
    pub fn links_fit(&self, signal: &Signal) -> (r: bool)
        ensures
            r == apply_links(self.graph(), signal.neuron@, signal.links@) is Some,
    {
        let ghost g = self.graph();
        let ghost n = signal.neuron@;
        let ghost links = signal.links@;
        let mut ov: Vec<([u8; 32], u64)> = Vec::new();
        let mut i: usize = 0;
        proof {
            assert(links.take(0) =~= Seq::<Cyberlink>::empty());
        }
        while i < signal.links.len()
            invariant
                i <= links.len(),
                g == self.graph(),
                n == signal.neuron@,
                links == signal.links@,
                apply_links(g, n, links.take(i as int)) matches Some(gi) && gi.balances == balances_over(g.balances, ov@),
            decreases links.len() - i,
        {
            let l = signal.links[i];
            let ghost gi = apply_links(g, n, links.take(i as int))->Some_0;
            proof {
                assert(links.take(i + 1).drop_last() =~= links.take(i as int));
                assert(links.take(i + 1).last() == l);
            }
            let tk = balance_key(&l.to, &l.token);
            let bt = self.balance_over(&ov, &tk);
            if l.amount > u64::MAX - bt {
                proof {
                    lemma_links_fail_on(g, n, links, i + 1);
                }
                return false;
            }
            let ghost ov0 = ov@;
            ov.push((tk, bt + l.amount));
            let fk = balance_key(&l.from, &l.token);
            let bf = self.balance_over(&ov, &fk);
            ov.push((fk, if bf > l.amount { bf - l.amount } else { 0 }));
            proof {
                let b1 = gi.balances.insert(tk@, (bt + l.amount) as u64);
                assert(ov@.drop_last() =~= ov0.push((tk, (bt + l.amount) as u64)));
                assert(ov0.push((tk, (bt + l.amount) as u64)).drop_last() =~= ov0);
                assert(balances_over(g.balances, ov@.drop_last()) == b1);
            }
            i = i + 1;
        }
        proof {
            assert(links.take(i as int) =~= links);
        }
        true
    }

    /// Insert a signal: refused whole if a move spends a nullifier already
    /// spent; otherwise every move's nullifier is spent, its created output
    /// committed, and every cyberlink applied in order (see [`link_step`]).
    pub fn insert(&mut self, signal: &Signal) -> (r: Result<(), InsertError>)
        requires
            double_spent(old(self).nullifiers_view(), signal.utxo_moves@) || apply_links(
                old(self).graph(),
                signal.neuron@,
                signal.links@,
            ) is Some,
        ensures
            double_spent(old(self).nullifiers_view(), signal.utxo_moves@) ==> r == Err::<(), InsertError>(
                InsertError::DoubleSpend,
            ) && *final(self) == *old(self),
            !double_spent(old(self).nullifiers_view(), signal.utxo_moves@) ==> {
                &&& r is Ok
                &&& final(self).nullifiers_view() == spend(old(self).nullifiers_view(), signal.utxo_moves@)
                &&& final(self).commitments_view() == commit_moves(old(self).commitments_view(), signal.utxo_moves@)
                &&& apply_links(old(self).graph(), signal.neuron@, signal.links@) == Some(final(self).graph())
            },
            final(self).intents_view() == old(self).intents_view(),
            final(self).signals_view() == old(self).signals_view(),
            final(self).time_view() == old(self).time_view(),
            final(self).fixed_sizes() == old(self).fixed_sizes(),
            final(self).diameter_override_view() == old(self).diameter_override_view(),
            final(self).height_view() == old(self).height_view(),
    {
        let mut i: usize = 0;
        while i < signal.utxo_moves.len()
            invariant
                i <= signal.utxo_moves@.len(),
                forall|j: int| 0 <= j < i ==> !self.nullifiers_view().contains(#[trigger] signal.utxo_moves@[j].nullifier@),
            decreases signal.utxo_moves@.len() - i,
        {
            if self.nullifiers.get(&signal.utxo_moves[i].nullifier).is_some() {
                return Err(InsertError::DoubleSpend);
            }
            i = i + 1;
        }
        let ghost g0 = self.graph();
        self.apply_moves(&signal.utxo_moves);
        let mut k: usize = 0;
        proof {
            assert(signal.links@.take(0) =~= Seq::<Cyberlink>::empty());
        }
        while k < signal.links.len()
            invariant
                k <= signal.links@.len(),
                apply_links(g0, signal.neuron@, signal.links@) is Some,
                apply_links(g0, signal.neuron@, signal.links@.take(k as int)) == Some(self.graph()),
                self.nullifiers_view() == spend(old(self).nullifiers_view(), signal.utxo_moves@),
                self.commitments_view() == commit_moves(old(self).commitments_view(), signal.utxo_moves@),
                self.intents_view() == old(self).intents_view(),
                self.signals_view() == old(self).signals_view(),
                self.time_view() == old(self).time_view(),
                self.fixed_sizes() == old(self).fixed_sizes(),
                self.diameter_override_view() == old(self).diameter_override_view(),
                self.height_view() == old(self).height_view(),
            decreases signal.links@.len() - k,
        {
            proof {
                let t = signal.links@.take(k + 1);
                assert(t.drop_last() =~= signal.links@.take(k as int));
                assert(t.last() == signal.links@[k as int]);
                lemma_links_prefix(g0, signal.neuron@, signal.links@, k + 1);
            }
            self.apply_link(&signal.neuron, &signal.links[k]);
            k = k + 1;
        }
        proof {
            assert(signal.links@.take(k as int) =~= signal.links@);
        }
        Ok(())
    }

    /// The committed graph statistics: exact entry counts of every committed
    /// relation, the longest adjacency list, and a diameter bound, installed
    /// or else the trivial one of a connected graph.
    pub fn statistics(&self) -> (s: GraphStats)
        ensures
            s.node_count == self.graph().particles.dom().len(),
            s.relation_sizes@ == seq![
                self.graph().particles.dom().len() as u64,
                self.graph().axons_out.dom().len() as u64,
                self.graph().axons_in.dom().len() as u64,
                self.graph().neurons.dom().len() as u64,
                self.fixed_sizes().0 as u64,
                self.fixed_sizes().1 as u64,
                self.fixed_sizes().2 as u64,
                self.fixed_sizes().3 as u64,
                self.time_view().dom().len() as u64,
                self.signals_view().dom().len() as u64,
                self.graph().balances.dom().len() as u64,
            ],
            longest(self.graph().axons_out, s.max_degree as nat) || longest(self.graph().axons_in, s.max_degree as nat),
            forall|k: Seq<u8>| #[trigger] self.graph().axons_out.dom().contains(k) ==> self.graph().axons_out[k].len() <= s.max_degree,
            forall|k: Seq<u8>| #[trigger] self.graph().axons_in.dom().contains(k) ==> self.graph().axons_in[k].len() <= s.max_degree,
            s.diameter_bound == match self.diameter_override_view() {
                Some(b) => b,
                None => s.node_count.saturating_sub(1),
            },
    {
        let node_count = count(&self.particles);
        let relation_sizes: [u64; 11] = [
            node_count,
            count(&self.axons_out),
            count(&self.axons_in),
            count(&self.neurons),
            count(&self.locations),
            count(&self.coins),
            count(&self.cards),
            count(&self.files),
            count(&self.time),
            count(&self.signals),
            count(&self.balances),
        ];
        let max_out = longest_list(&self.axons_out);
        let max_in = longest_list(&self.axons_in);
        let max_degree = if max_out >= max_in { max_out as u64 } else { max_in as u64 };
        let diameter_bound = match self.diameter_override {
            Some(b) => b,
            None => node_count.saturating_sub(1),
        };
        proof {
            assert(lists_of(self.axons_out@).dom() =~= self.axons_out@.dom());
            assert(lists_of(self.axons_in@).dom() =~= self.axons_in@.dom());
            assert(self.time_view().dom() =~= self.time@.dom());
            assert(relation_sizes@ =~= seq![
                self.graph().particles.dom().len() as u64,
                self.graph().axons_out.dom().len() as u64,
                self.graph().axons_in.dom().len() as u64,
                self.graph().neurons.dom().len() as u64,
                self.fixed_sizes().0 as u64,
                self.fixed_sizes().1 as u64,
                self.fixed_sizes().2 as u64,
                self.fixed_sizes().3 as u64,
                self.time_view().dom().len() as u64,
                self.signals_view().dom().len() as u64,
                self.graph().balances.dom().len() as u64,
            ]);
        }
        GraphStats { node_count, relation_sizes, max_degree, diameter_bound }
    }

    /// Install a tighter diameter bound.
    pub fn set_diameter_bound(&mut self, bound: u64)
        ensures
            final(self).diameter_override_view() == Some(bound),
            final(self).graph() == old(self).graph(),
            final(self).nullifiers_view() == old(self).nullifiers_view(),
            final(self).commitments_view() == old(self).commitments_view(),
            final(self).intents_view() == old(self).intents_view(),
            final(self).signals_view() == old(self).signals_view(),
            final(self).time_view() == old(self).time_view(),
            final(self).fixed_sizes() == old(self).fixed_sizes(),
            final(self).height_view() == old(self).height_view(),
    {
        self.diameter_override = Some(bound);
    }

    /// Persist an unsealed intent at the key of its neuron, inception height
    /// and scope, and return that key: identical intents coincide.
    pub fn apply_intent(&mut self, intent: &IntentRecord) -> (key: Particle)
        ensures
            key@ == intent_slot(intent.neuron@, intent.h0, intent.scope_hash@),
            final(self).intents_view() == old(self).intents_view().insert(key@, *intent),
            final(self).graph() == old(self).graph(),
            final(self).nullifiers_view() == old(self).nullifiers_view(),
            final(self).commitments_view() == old(self).commitments_view(),
            final(self).signals_view() == old(self).signals_view(),
            final(self).time_view() == old(self).time_view(),
            final(self).fixed_sizes() == old(self).fixed_sizes(),
            final(self).diameter_override_view() == old(self).diameter_override_view(),
            final(self).height_view() == old(self).height_view(),
    {
        let key = intent_key(&intent.neuron, intent.h0, &intent.scope_hash);
        self.intents.set(copy_bytes(&key), *intent);
        key
    }

    /// Persist a signal's header record at its step.
    /// Record the root snapshot of `height` in the time dimension.
    pub fn record_time(&mut self, height: u64, root: Particle)
        ensures
            final(self).time_view() == old(self).time_view().insert(crate::bytes::be64(height), root@),
            final(self).signals_view() == old(self).signals_view(),
            final(self).graph() == old(self).graph(),
            final(self).nullifiers_view() == old(self).nullifiers_view(),
            final(self).commitments_view() == old(self).commitments_view(),
            final(self).intents_view() == old(self).intents_view(),
            final(self).fixed_sizes() == old(self).fixed_sizes(),
            final(self).diameter_override_view() == old(self).diameter_override_view(),
            final(self).height_view() == old(self).height_view(),
    {
        let mut key: Vec<u8> = Vec::new();
        push_be64(&mut key, height);
        proof {
            assert(key@ =~= crate::bytes::be64(height));
        }
        self.time.set(key, root);
        proof {
            assert(self.time@.map_values(|p: Particle| p@) =~= old(self).time@.map_values(|p: Particle| p@).insert(
                crate::bytes::be64(height),
                root@,
            ));
        }
    }

    pub fn apply_signal_record(&mut self, step: u64, record: SignalRecord)
        ensures
            final(self).signals_view() == old(self).signals_view().insert(crate::bytes::be64(step), record),
            final(self).graph() == old(self).graph(),
            final(self).nullifiers_view() == old(self).nullifiers_view(),
            final(self).commitments_view() == old(self).commitments_view(),
            final(self).intents_view() == old(self).intents_view(),
            final(self).time_view() == old(self).time_view(),
            final(self).fixed_sizes() == old(self).fixed_sizes(),
            final(self).diameter_override_view() == old(self).diameter_override_view(),
            final(self).height_view() == old(self).height_view(),
    {
        let mut key: Vec<u8> = Vec::new();
        push_be64(&mut key, step);
        proof {
            assert(key@ =~= crate::bytes::be64(step));
        }
        self.signals.set(key, record);
    }

    /// The record of a particle, if it has one.
    pub fn particle(&self, id: &Particle) -> (r: Option<ParticleRecord>)
        ensures
            match r {
                Some(p) => self.graph().particles.dom().contains(id@) && p == self.graph().particles[id@],
                None => !self.graph().particles.dom().contains(id@),
            },
    {
        match self.particles.get(id) {
            Some(p) => Some(*p),
            None => None,
        }
    }

    /// Set the record of a particle.
    pub fn set_particle(&mut self, id: &Particle, record: ParticleRecord)
        ensures
            final(self).graph() == (Graph { particles: old(self).graph().particles.insert(id@, record), ..old(self).graph() }),
            final(self).nullifiers_view() == old(self).nullifiers_view(),
            final(self).commitments_view() == old(self).commitments_view(),
            final(self).intents_view() == old(self).intents_view(),
            final(self).signals_view() == old(self).signals_view(),
            final(self).time_view() == old(self).time_view(),
            final(self).fixed_sizes() == old(self).fixed_sizes(),
            final(self).diameter_override_view() == old(self).diameter_override_view(),
            final(self).height_view() == old(self).height_view(),
    {
        self.particles.set(copy_bytes(id), record);
    }

    /// The record of a neuron, if it has one.
    pub fn neuron(&self, id: &NeuronId) -> (r: Option<NeuronRecord>)
        ensures
            match r {
                Some(n) => self.graph().neurons.dom().contains(id@) && n == self.graph().neurons[id@],
                None => !self.graph().neurons.dom().contains(id@),
            },
    {
        match self.neurons.get(id) {
            Some(n) => Some(*n),
            None => None,
        }
    }

    /// Set the record of a neuron.
    pub fn set_neuron(&mut self, id: &NeuronId, record: NeuronRecord)
        ensures
            final(self).graph() == (Graph { neurons: old(self).graph().neurons.insert(id@, record), ..old(self).graph() }),
            final(self).nullifiers_view() == old(self).nullifiers_view(),
            final(self).commitments_view() == old(self).commitments_view(),
            final(self).intents_view() == old(self).intents_view(),
            final(self).signals_view() == old(self).signals_view(),
            final(self).time_view() == old(self).time_view(),
            final(self).fixed_sizes() == old(self).fixed_sizes(),
            final(self).diameter_override_view() == old(self).diameter_override_view(),
            final(self).height_view() == old(self).height_view(),
    {
        self.neurons.set(copy_bytes(id), record);
    }

    /// The public balance at `key`; zero where there is none.
    pub fn balance(&self, key: &[u8; 32]) -> (b: u64)
        ensures
            b == balance_of(self.graph().balances, key@),
    {
        balance_or_zero(&self.balances, key)
    }

    /// The axons leaving a particle.
    pub fn axons_out(&self, id: &Particle) -> (r: Vec<Particle>)
        ensures
            particles_view(r@) == (if self.graph().axons_out.dom().contains(id@) {
                self.graph().axons_out[id@]
            } else {
                Seq::empty()
            }),
    {
        match self.axons_out.get(id) {
            Some(v) => copy_particles(v),
            None => Vec::new(),
        }
    }

    /// The axons entering a particle.
    pub fn axons_in(&self, id: &Particle) -> (r: Vec<Particle>)
        ensures
            particles_view(r@) == (if self.graph().axons_in.dom().contains(id@) {
                self.graph().axons_in[id@]
            } else {
                Seq::empty()
            }),
    {
        match self.axons_in.get(id) {
            Some(v) => copy_particles(v),
            None => Vec::new(),
        }
    }

    /// Whether a nullifier is spent.
    pub fn is_spent(&self, nullifier: &[u8; 32]) -> (r: bool)
        ensures
            r == self.nullifiers_view().contains(nullifier@),
    {
        self.nullifiers.get(nullifier).is_some()
    }

    /// The private commitment at `point`, if any.
    pub fn commitment(&self, point: &[u8; 32]) -> (r: Option<u64>)
        ensures
            match r {
                Some(v) => self.commitments_view().dom().contains(point@) && v == self.commitments_view()[point@],
                None => !self.commitments_view().dom().contains(point@),
            },
    {
        match self.commitments.get(point) {
            Some(v) => Some(*v),
            None => None,
        }
    }

    /// The pi-star score of every particle, in key order.
    pub closed spec fn pi_scores(&self) -> Seq<u64> {
        self.particles.entries().map_values(|e: (Seq<u8>, ParticleRecord)| e.1.pi_star)
    }

    /// Every map of the graph is finite.
    pub fn graph_facts(&self)
        ensures
            graph_finite(self.graph()),
            self.pi_scores().len() == self.graph().particles.dom().len(),
    {
        proof {
            use_type_invariant(&self.particles);
            use_type_invariant(&self.axons_out);
            use_type_invariant(&self.axons_in);
            use_type_invariant(&self.neurons);
            use_type_invariant(&self.balances);
            use_type_invariant(&self.axon_edges);
            self.particles.lemma_wf();
            self.axons_out.lemma_wf();
            self.axons_in.lemma_wf();
            self.neurons.lemma_wf();
            self.balances.lemma_wf();
            self.axon_edges.lemma_wf();
            crate::ordered::lemma_unique_len(self.particles.entries());
            assert(lists_of(self.axons_out@).dom() =~= self.axons_out@.dom());
            assert(lists_of(self.axons_in@).dom() =~= self.axons_in@.dom());
            assert(edges_of(self.axon_edges@).dom() =~= self.axon_edges@.dom());
        }
    }

    /// Rough storage estimate in bytes of the graph dimensions; see [`estimate`].
    pub(crate) fn estimate_bytes(&self) -> (r: u64)
        requires
            estimate(self.graph()) <= u64::MAX,
        ensures
            r == estimate(self.graph()),
    {
        self.graph_facts();
        proof {
            lemma_lists_weight_nonneg(self.graph().axons_out);
            lemma_lists_weight_nonneg(self.graph().axons_in);
        }
        let particles = count(&self.particles) * 80;
        let out = lists_bytes(&self.axons_out);
        let inn = lists_bytes(&self.axons_in);
        let neurons = count(&self.neurons) * 56;
        particles + out + inn + neurons
    }

    /// The pi-star threshold below which entries may be pruned.
    pub fn rank_floor(&self, pct: u8) -> (r: u64)
        ensures
            r == rank_floor_spec(self.pi_scores(), pct),
    {
        if pct == 0 {
            return u64::MAX;
        }
        let ghost e = self.particles.entries();
        let mut scores: Vec<u64> = Vec::new();
        let mut i: usize = 0;
        while i < self.particles.len()
            invariant
                e == self.particles.entries(),
                i <= e.len(),
                scores@ =~= e.take(i as int).map_values(|x: (Seq<u8>, ParticleRecord)| x.1.pi_star),
            decreases e.len() - i,
        {
            let (_, p) = self.particles.entry(i);
            scores.push(p.pi_star);
            proof {
                assert(e.take(i + 1) =~= e.take(i as int).push(e[i as int]));
            }
            i = i + 1;
        }
        proof {
            assert(e.take(i as int) =~= e);
        }
        if scores.len() == 0 {
            return 0;
        }
        let ghost original = scores@;
        sort_values(&mut scores);
        let n = scores.len();
        let wide_n = n as u128;
        let wide_pct = pct as u128;
        assert(wide_n * wide_pct <= 0xffff_ffff_ffff_ffffu128 * 255) by (nonlinear_arith)
            requires
                wide_n <= 0xffff_ffff_ffff_ffffu128,
                wide_pct <= 255,
        ;
        let protected = (wide_n * wide_pct + 99) / 100;
        let boundary: usize = if (n as u128) >= protected {
            (n as u128 - protected) as usize
        } else {
            0
        };
        proof {
            broadcast use vstd::seq_lib::group_to_multiset_ensures;
            let leq = |x: u64, y: u64| x <= y;
            assert(vstd::relations::total_ordering(leq));
            original.lemma_sort_by_ensures(leq);
            vstd::seq_lib::lemma_sorted_unique(scores@, original.sort_by(leq), leq);
            assert(original.to_multiset().len() == original.len());
            assert(scores@.len() == original.len());
            assert(wide_n * wide_pct >= 1) by (nonlinear_arith)
                requires
                    wide_n >= 1,
                    wide_pct >= 1,
            ;
            assert(protected >= 1);
            assert(protected == (n as nat * pct + 99) / 100);
            assert(boundary == floor_index(n as nat, pct));
            assert(boundary < n);
        }
        scores[boundary]
    }

    /// Remove axon `id` with its particle, edge, adjacency entries and last touch.
    pub fn remove_axon(&mut self, ps: &mut crate::prune::PruneState, id: &[u8])
        ensures
            final(self).graph() == remove_graph(old(self).graph(), id@),
            final(ps)@ == old(ps)@.remove(id@),
            final(self).pi_scores().len() == final(self).graph().particles.dom().len(),
            final(self).nullifiers_view() == old(self).nullifiers_view(),
            final(self).commitments_view() == old(self).commitments_view(),
            final(self).intents_view() == old(self).intents_view(),
            final(self).signals_view() == old(self).signals_view(),
            final(self).time_view() == old(self).time_view(),
            final(self).fixed_sizes() == old(self).fixed_sizes(),
            final(self).diameter_override_view() == old(self).diameter_override_view(),
            final(self).height_view() == old(self).height_view(),
    {
        let ghost g = self.graph();
        self.particles.remove(id);
        ps.last_touched.remove(id);
        let ghost e0 = self.axon_edges@;
        match self.axon_edges.remove(id) {
            Some((from, to)) => {
                drop_from_list(&mut self.axons_out, &from, id);
                drop_from_list(&mut self.axons_in, &to, id);
            },
            None => {},
        }
        proof {
            assert(edges_of(self.axon_edges@) =~= edges_of(e0).remove(id@));
            if g.edges.dom().contains(id@) {
                assert(self.graph() == remove_graph(g, id@));
            } else {
                assert(edges_of(e0).remove(id@) =~= edges_of(e0));
                assert(self.graph() == remove_graph(g, id@));
            }
        }
        self.graph_facts();
    }

    /// The candidates of a pruning cycle with their weights, in ascending id
    /// order; see [`candidate`].
    pub fn prune_candidates(
        &self,
        touched: &crate::prune::PruneState,
        floor: u64,
        over: bool,
        epoch: u64,
        half_life: u64,
    ) -> (c: Vec<(u64, Vec<u8>)>)
        ensures
            forall|i: int| 0 <= i < c@.len() ==> (#[trigger] c@[i]).0 == weight_of(self.graph(), c@[i].1@),
            forall|i: int|
                0 <= i < c@.len() ==> candidate(self.graph(), touched@, floor, over, epoch, half_life, (#[trigger] c@[i]).1@),
            forall|id: Seq<u8>|
                candidate(self.graph(), touched@, floor, over, epoch, half_life, id) ==> exists|i: int|
                    0 <= i < c@.len() && (#[trigger] c@[i]).1@ == id,
            forall|i: int, j: int| 0 <= i < j < c@.len() ==> crate::bytes::lex_lt(#[trigger] c@[i].1@, #[trigger] c@[j].1@),
    {
        let ghost g = self.graph();
        proof {
            use_type_invariant(&self.particles);
            self.particles.lemma_wf();
            use_type_invariant(&touched.last_touched);
            touched.last_touched.lemma_wf();
        }
        let ghost keys = if over {
            self.particles.entries().map_values(|x: (Seq<u8>, ParticleRecord)| x.0)
        } else {
            touched.last_touched.entries().map_values(|x: (Seq<u8>, u64)| x.0)
        };
        let n = if over {
            self.particles.len()
        } else {
            touched.last_touched.len()
        };
        proof {
            if over {
                let e = self.particles.entries();
                assert forall|a: int, b: int| 0 <= a < b < keys.len() implies crate::bytes::lex_lt(#[trigger] keys[a], #[trigger] keys[b]) by {
                    assert(keys[a] == e[a].0 && keys[b] == e[b].0);
                }
            } else {
                let e = touched.last_touched.entries();
                assert forall|a: int, b: int| 0 <= a < b < keys.len() implies crate::bytes::lex_lt(#[trigger] keys[a], #[trigger] keys[b]) by {
                    assert(keys[a] == e[a].0 && keys[b] == e[b].0);
                }
            }
        }
        let mut c: Vec<(u64, Vec<u8>)> = Vec::new();
        let mut i: usize = 0;
        while i < n
            invariant
                g == self.graph(),
                n == keys.len(),
                keys.len() == (if over {
                    self.particles.entries().len()
                } else {
                    touched.last_touched.entries().len()
                }),
                i <= n,
                forall|a: int, b: int| 0 <= a < b < keys.len() ==> crate::bytes::lex_lt(#[trigger] keys[a], #[trigger] keys[b]),
                forall|y: int| 0 <= y < keys.len() ==> (#[trigger] keys[y]) == self.candidate_key(touched, over, y),
                forall|x: int| 0 <= x < c@.len() ==> (#[trigger] c@[x]).0 == weight_of(g, c@[x].1@),
                forall|x: int| 0 <= x < c@.len() ==> candidate(g, touched@, floor, over, epoch, half_life, (#[trigger] c@[x]).1@),
                forall|x: int, y: int| 0 <= x < c@.len() && i <= y < keys.len() ==> crate::bytes::lex_lt((#[trigger] c@[x]).1@, #[trigger] keys[y]),
                forall|x: int, z: int| 0 <= x < z < c@.len() ==> crate::bytes::lex_lt(#[trigger] c@[x].1@, #[trigger] c@[z].1@),
                forall|y: int|
                    0 <= y < i && candidate(g, touched@, floor, over, epoch, half_life, #[trigger] keys[y]) ==> exists|x: int|
                        0 <= x < c@.len() && (#[trigger] c@[x]).1@ == keys[y],
            decreases n - i,
        {
            let (key, chosen, weight) = self.candidate_at(touched, floor, over, epoch, half_life, i);
            let ghost c0 = c@;
            if chosen {
                c.push((weight, key));
            }
            proof {
                assert forall|x: int| 0 <= x < c0.len() implies c@[x] == c0[x] by {}
                assert forall|x: int, y: int| 0 <= x < c@.len() && i + 1 <= y < keys.len() implies crate::bytes::lex_lt(
                    (#[trigger] c@[x]).1@,
                    #[trigger] keys[y],
                ) by {
                    if x < c0.len() {
                        assert(c@[x] == c0[x]);
                        crate::bytes::lemma_lex_transitive(c0[x].1@, keys[i as int], keys[y]);
                    } else {
                        assert(c@[x].1@ == keys[i as int]);
                    }
                }
                assert forall|x: int, z: int| 0 <= x < z < c@.len() implies crate::bytes::lex_lt(#[trigger] c@[x].1@, #[trigger] c@[z].1@) by {
                    if z >= c0.len() {
                        assert(c@[x] == c0[x]);
                        assert(c@[z].1@ == keys[i as int]);
                    } else {
                        assert(c@[x] == c0[x] && c@[z] == c0[z]);
                    }
                }
                assert forall|y: int|
                    0 <= y < i + 1 && candidate(g, touched@, floor, over, epoch, half_life, #[trigger] keys[y]) implies exists|x: int|
                        0 <= x < c@.len() && (#[trigger] c@[x]).1@ == keys[y] by {
                    if y < i {
                        let x = choose|x: int| 0 <= x < c0.len() && (#[trigger] c0[x]).1@ == keys[y];
                        assert(c@[x] == c0[x]);
                    } else {
                        assert(c@[c@.len() - 1].1@ == keys[y]);
                    }
                }
            }
            i = i + 1;
        }
        proof {
            assert forall|id: Seq<u8>| candidate(g, touched@, floor, over, epoch, half_life, id) implies exists|x: int|
                0 <= x < c@.len() && (#[trigger] c@[x]).1@ == id by {
                if over {
                    let e = self.particles.entries();
                    crate::ordered::lemma_map_of_has_key(e, id);
                    let y = choose|y: int| 0 <= y < e.len() && #[trigger] e[y].0 == id;
                    assert(keys[y] == id);
                } else {
                    let e = touched.last_touched.entries();
                    crate::ordered::lemma_map_of_has_key(e, id);
                    let y = choose|y: int| 0 <= y < e.len() && #[trigger] e[y].0 == id;
                    assert(keys[y] == id);
                }
            }
        }
        c
    }

    /// The key of entry `y` that a pruning cycle examines: a particle over
    /// budget, a touched entry otherwise.
    closed spec fn candidate_key(&self, touched: &crate::prune::PruneState, over: bool, y: int) -> Seq<u8> {
        if over {
            self.particles.entries()[y].0
        } else {
            touched.last_touched.entries()[y].0
        }
    }

    /// Entry `i` of the examined map: its key, whether it is a candidate, and its weight.
    fn candidate_at(
        &self,
        touched: &crate::prune::PruneState,
        floor: u64,
        over: bool,
        epoch: u64,
        half_life: u64,
        i: usize,
    ) -> (r: (Vec<u8>, bool, u64))
        requires
            i < (if over {
                self.particles.entries().len()
            } else {
                touched.last_touched.entries().len()
            }),
        ensures
            r.0@ == self.candidate_key(touched, over, i as int),
            r.1 == candidate(self.graph(), touched@, floor, over, epoch, half_life, r.0@),
            r.2 == weight_of(self.graph(), r.0@),
    {
        proof {
            use_type_invariant(&self.particles);
            self.particles.lemma_wf();
            use_type_invariant(&touched.last_touched);
            touched.last_touched.lemma_wf();
        }
        if over {
            let (k, p) = self.particles.entry(i);
            proof {
                crate::ordered::lemma_map_of_index(self.particles.entries(), i as int);
            }
            (copy_bytes(k.as_slice()), p.pi_star < floor, p.weight)
        } else {
            let (k, last) = touched.last_touched.entry(i);
            proof {
                crate::ordered::lemma_map_of_index(touched.last_touched.entries(), i as int);
            }
            let (pi, weight) = match self.particles.get(k.as_slice()) {
                Some(p) => (p.pi_star, p.weight),
                None => (0, 0),
            };
            (copy_bytes(k.as_slice()), pi < floor && epoch.saturating_sub(*last) > half_life, weight)
        }
    }

    /// An empty state at height zero.
    pub fn new() -> (s: Self)
        ensures
            s.graph() == (Graph {
                particles: Map::empty(),
                axons_out: Map::empty(),
                axons_in: Map::empty(),
                neurons: Map::empty(),
                balances: Map::empty(),
                edges: Map::empty(),
            }),
            s.nullifiers_view() == Set::<Seq<u8>>::empty(),
            s.commitments_view() == Map::<Seq<u8>, u64>::empty(),
            s.intents_view() == Map::<Seq<u8>, IntentRecord>::empty(),
            s.signals_view() == Map::<Seq<u8>, SignalRecord>::empty(),
            s.time_view() == Map::<Seq<u8>, Seq<u8>>::empty(),
            s.fixed_sizes() == (0nat, 0nat, 0nat, 0nat),
            s.diameter_override_view() is None,
            s.height_view() == 0,
    {
        let s = BbgState {
            particles: OrderedMap::new(),
            axons_out: OrderedMap::new(),
            axons_in: OrderedMap::new(),
            neurons: OrderedMap::new(),
            locations: OrderedMap::new(),
            coins: OrderedMap::new(),
            cards: OrderedMap::new(),
            files: OrderedMap::new(),
            time: OrderedMap::new(),
            signals: OrderedMap::new(),
            commitments: OrderedMap::new(),
            nullifiers: OrderedMap::new(),
            balances: OrderedMap::new(),
            intents: OrderedMap::new(),
            axon_edges: OrderedMap::new(),
            diameter_override: None,
            height: 0,
        };
        proof {
            assert(lists_of(s.axons_out@) =~= Map::<Seq<u8>, Seq<Seq<u8>>>::empty());
            assert(lists_of(s.axons_in@) =~= Map::<Seq<u8>, Seq<Seq<u8>>>::empty());
            assert(edges_of(s.axon_edges@) =~= Map::<Seq<u8>, (Seq<u8>, Seq<u8>)>::empty());
            assert(s.time_view() =~= Map::<Seq<u8>, Seq<u8>>::empty());
            assert(s.nullifiers_view() =~= Set::<Seq<u8>>::empty());
            assert(s.locations@.dom() =~= Set::<Seq<u8>>::empty());
            assert(s.coins@.dom() =~= Set::<Seq<u8>>::empty());
            assert(s.cards@.dom() =~= Set::<Seq<u8>>::empty());
            assert(s.files@.dom() =~= Set::<Seq<u8>>::empty());
        }
        s
    }
}

} // verus!
