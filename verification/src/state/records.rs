//! The state as exact byte records. Each record is keyed by a domain byte and
//! its entity: a 32-byte id, or for time and signals the big-endian bytes of a
//! height or step. Its value is the encoding below. One record can be read, or
//! restored from its bytes; an undo log captures records and restores them.
use super::BbgState;
use crate::bytes::{lex_lt, append_bytes, copy_bytes, le32, le64, lemma_le64, push_le32, push_le64, read_array32, read_le32, read_le64};
use crate::ordered::{lemma_map_of_has_key, lemma_map_of_index, lemma_unique_len, map_of, unique, OrderedMap};
use crate::prune::PruneState;
use crate::storage::access::{field_bytes, FIELD_MODULUS};
use crate::transition::{Record, Error, MAX_BYTES, MAX_KEYS, intent, intent_bytes, neuron, neuron_values, particle, particle_values, particles_bytes, adjacency};
use crate::types::{
    CardRecord, CoinRecord, FileRecord, IntentRecord, LocationRecord, NeuronRecord, Particle, ParticleRecord,
    SignalRecord,
};
use vstd::bytes::{spec_u32_from_le_bytes, spec_u64_from_le_bytes};
use vstd::prelude::*;

verus! {

/// Byte strings, concatenated in order.
pub open spec fn flat(l: Seq<Seq<u8>>) -> Seq<u8>
    decreases l.len(),
{
    if l.len() == 0 {
        Seq::empty()
    } else {
        flat(l.drop_last()) + l.last()
    }
}

/// An adjacency list: its length, then its particles.
pub open spec fn list_bytes(l: Seq<Seq<u8>>) -> Seq<u8> {
    le64(l.len() as u64) + flat(l)
}

/// A signal record: neuron, link count, block height, proof hash.
pub open spec fn signal_bytes(r: SignalRecord) -> Seq<u8> {
    r.neuron@ + le32(r.link_count) + le64(r.block_height) + r.proof_hash@
}

/// A location: latitude, then longitude, each four bytes little-endian.
pub open spec fn location_bytes(r: LocationRecord) -> Seq<u8> {
    le32(r.lat as u32) + le32(r.lon as u32)
}

/// A card: owner, then particle.
pub open spec fn card_bytes(r: CardRecord) -> Seq<u8> {
    r.owner@ + r.particle@
}

/// A file record: one availability byte, then the chunk count.
pub open spec fn file_bytes(r: FileRecord) -> Seq<u8> {
    seq![if r.available { 1u8 } else { 0u8 }] + le32(r.chunk_count)
}

/// The records of one domain, by entity:
/// 1 particles, 2 outgoing and 3 incoming axons, 4 neurons, 5 locations,
/// 6 coins, 7 cards, 8 files, 9 time, 10 signals, 11 commitments,
/// 12 spent nullifiers (an empty value), 13 balances, 14 intents,
/// 15 axon edges, 16 the epochs at which axons were last touched.
pub open spec fn domain_records(s: BbgState, ps: PruneState, d: u8) -> Map<Seq<u8>, Seq<u8>> {
    let g = s.graph();
    if d == 1 {
        g.particles.map_values(|p: ParticleRecord| field_bytes(particle_values(p)))
    } else if d == 2 {
        g.axons_out.map_values(|l: Seq<Seq<u8>>| list_bytes(l))
    } else if d == 3 {
        g.axons_in.map_values(|l: Seq<Seq<u8>>| list_bytes(l))
    } else if d == 4 {
        g.neurons.map_values(|n: NeuronRecord| field_bytes(neuron_values(n)))
    } else if d == 5 {
        s.locations_view().map_values(|r: LocationRecord| location_bytes(r))
    } else if d == 6 {
        s.coins_view().map_values(|r: CoinRecord| le64(r.total_supply))
    } else if d == 7 {
        s.cards_view().map_values(|r: CardRecord| card_bytes(r))
    } else if d == 8 {
        s.files_view().map_values(|r: FileRecord| file_bytes(r))
    } else if d == 9 {
        s.time_view()
    } else if d == 10 {
        s.signals_view().map_values(|r: SignalRecord| signal_bytes(r))
    } else if d == 11 {
        s.commitments_view().map_values(|v: u64| le64(v))
    } else if d == 12 {
        s.nullifiers_view().mk_map(|k: Seq<u8>| Seq::<u8>::empty())
    } else if d == 13 {
        g.balances.map_values(|v: u64| le64(v))
    } else if d == 14 {
        s.intents_view().map_values(|i: IntentRecord| intent_bytes(i))
    } else if d == 15 {
        g.edges.map_values(|e: (Seq<u8>, Seq<u8>)| e.0 + e.1)
    } else if d == 16 {
        ps@.map_values(|v: u64| le64(v))
    } else {
        Map::empty()
    }
}

/// The record at `key`: the domain is its first byte, the entity the rest.
pub open spec fn record_at(s: BbgState, ps: PruneState, key: Seq<u8>) -> Option<Seq<u8>> {
    if key.len() > 0 && domain_records(s, ps, key[0]).dom().contains(key.drop_first()) {
        Some(domain_records(s, ps, key[0])[key.drop_first()])
    } else {
        None
    }
}

pub proof fn lemma_flat_particles(v: Seq<Particle>)
    ensures
        flat(v.map_values(|p: Particle| p@)) == particles_bytes(v),
    decreases v.len(),
{
    if v.len() > 0 {
        lemma_flat_particles(v.drop_last());
        assert(v.map_values(|p: Particle| p@).drop_last() =~= v.drop_last().map_values(|p: Particle| p@));
    }
}

/// The bytes after the first.
fn entity_of(key: &[u8]) -> (e: Vec<u8>)
    requires
        key@.len() > 0,
    ensures
        e@ == key@.drop_first(),
{
    let mut e: Vec<u8> = Vec::with_capacity(key.len() - 1);
    let mut i: usize = 1;
    while i < key.len()
        invariant
            1 <= i <= key@.len(),
            e@ =~= key@.subrange(1, i as int),
        decreases key@.len() - i,
    {
        e.push(key[i]);
        i = i + 1;
    }
    e
}

fn le64_bytes(x: u64) -> (b: Vec<u8>)
    ensures
        b@ == le64(x),
{
    let mut b: Vec<u8> = Vec::new();
    push_le64(&mut b, x);
    assert(b@ =~= le64(x));
    b
}

fn signal_record_bytes(r: &SignalRecord) -> (b: Vec<u8>)
    ensures
        b@ == signal_bytes(*r),
{
    let mut b: Vec<u8> = Vec::new();
    append_bytes(&mut b, &r.neuron);
    push_le32(&mut b, r.link_count);
    push_le64(&mut b, r.block_height);
    append_bytes(&mut b, &r.proof_hash);
    assert(b@ =~= signal_bytes(*r));
    b
}

fn pair_bytes(a: &Particle, c: &Particle) -> (b: Vec<u8>)
    ensures
        b@ == a@ + c@,
{
    let mut b: Vec<u8> = Vec::new();
    append_bytes(&mut b, a);
    append_bytes(&mut b, c);
    assert(b@ =~= a@ + c@);
    b
}

impl BbgState {
    /// The record at `key`, encoded; `None` where the state holds none there.
    pub fn read_record(&self, prune: &PruneState, key: &[u8]) -> (r: Option<Vec<u8>>)
        ensures
            match r {
                Some(v) => record_at(*self, *prune, key@) == Some(v@),
                None => record_at(*self, *prune, key@) is None,
            },
    {
        if key.len() == 0 {
            return None;
        }
        let d = key[0];
        let e = entity_of(key);
        let ghost m = domain_records(*self, *prune, d);
        let r = if d == 1 {
            match self.particles.get(&e) {
                Some(p) => Some(particle(p)),
                None => None,
            }
        } else if d == 2 || d == 3 {
            let found = if d == 2 { self.axons_out.get(&e) } else { self.axons_in.get(&e) };
            match found {
                Some(v) => {
                    proof {
                        lemma_flat_particles(v@);
                    }
                    Some(adjacency(v.as_slice()))
                },
                None => None,
            }
        } else if d == 4 {
            match self.neurons.get(&e) {
                Some(n) => Some(neuron(n)),
                None => None,
            }
        } else if d == 5 {
            match self.locations.get(&e) {
                Some(l) => {
                    let mut b: Vec<u8> = Vec::new();
                    push_le32(&mut b, l.lat as u32);
                    push_le32(&mut b, l.lon as u32);
                    assert(b@ =~= location_bytes(*l));
                    Some(b)
                },
                None => None,
            }
        } else if d == 6 {
            match self.coins.get(&e) {
                Some(c) => Some(le64_bytes(c.total_supply)),
                None => None,
            }
        } else if d == 7 {
            match self.cards.get(&e) {
                Some(c) => Some(pair_bytes(&c.owner, &c.particle)),
                None => None,
            }
        } else if d == 8 {
            match self.files.get(&e) {
                Some(f) => {
                    let mut b: Vec<u8> = Vec::new();
                    b.push(if f.available { 1u8 } else { 0u8 });
                    push_le32(&mut b, f.chunk_count);
                    assert(b@ =~= file_bytes(*f));
                    Some(b)
                },
                None => None,
            }
        } else if d == 9 {
            match self.time.get(&e) {
                Some(p) => Some(copy_bytes(p)),
                None => None,
            }
        } else if d == 10 {
            match self.signals.get(&e) {
                Some(s) => Some(signal_record_bytes(s)),
                None => None,
            }
        } else if d == 11 {
            match self.commitments.get(&e) {
                Some(v) => Some(le64_bytes(*v)),
                None => None,
            }
        } else if d == 12 {
            match self.nullifiers.get(&e) {
                Some(_) => Some(Vec::new()),
                None => None,
            }
        } else if d == 13 {
            match self.balances.get(&e) {
                Some(v) => Some(le64_bytes(*v)),
                None => None,
            }
        } else if d == 14 {
            match self.intents.get(&e) {
                Some(i) => Some(intent(i)),
                None => None,
            }
        } else if d == 15 {
            match self.axon_edges.get(&e) {
                Some(p) => Some(pair_bytes(&p.0, &p.1)),
                None => None,
            }
        } else if d == 16 {
            match prune.last_touched.get(&e) {
                Some(v) => Some(le64_bytes(*v)),
                None => None,
            }
        } else {
            None
        };
        proof {
            assert(m == domain_records(*self, *prune, key@[0]));
        }
        r
    }
}


/// The eight little-endian bytes at `i`, as an integer.
pub open spec fn u64_at(b: Seq<u8>, i: int) -> u64 {
    spec_u64_from_le_bytes(b.subrange(i, i + 8))
}

/// Domains that a record can be restored into: all but locations, coins,
/// cards and files, which no transition changes. Domain 0 is the metadata
/// record, whose height the undo log restores itself: restoring it is a
/// deletion that changes nothing.
pub open spec fn restores(d: u8) -> bool {
    d <= 4 || (9 <= d <= 16)
}

/// The entity length of a domain: none for the metadata, eight bytes for time
/// and signals, else 32.
pub open spec fn entity_len(d: u8) -> nat {
    if d == 0 {
        0
    } else if d == 9 || d == 10 {
        8
    } else {
        32
    }
}

/// Whether `v` is a value of domain `d`: its exact length, for an adjacency
/// list the length its count asks for, and for a commitment a field element
/// in canonical form.
pub open spec fn value_fits(d: u8, v: Seq<u8>) -> bool {
    if d == 1 {
        v.len() == 48
    } else if d == 2 || d == 3 {
        v.len() >= 8 && (v.len() - 8) % 32 == 0 && (v.len() - 8) / 32 == u64_at(v, 0)
    } else if d == 4 {
        v.len() == 24
    } else if d == 9 {
        v.len() == 32
    } else if d == 10 {
        v.len() == 76
    } else if d == 11 {
        v.len() == 8 && u64_at(v, 0) < FIELD_MODULUS
    } else if d == 12 {
        v.len() == 0
    } else if d == 13 || d == 16 {
        v.len() == 8
    } else if d == 14 {
        v.len() == 136
    } else if d == 15 {
        v.len() == 64
    } else {
        false
    }
}

/// Whether `value` (or a deletion) can be restored at `key`.
pub open spec fn restorable(key: Seq<u8>, value: Option<Seq<u8>>) -> bool {
    &&& key.len() > 0
    &&& restores(key[0])
    &&& key.len() == 1 + entity_len(key[0])
    &&& match value {
        Some(v) => value_fits(key[0], v),
        None => true,
    }
}

pub open spec fn value_view(value: Option<&[u8]>) -> Option<Seq<u8>> {
    match value {
        Some(v) => Some(v@),
        None => None,
    }
}

proof fn lemma_le64_of(s: Seq<u8>)
    requires
        s.len() == 8,
    ensures
        le64(spec_u64_from_le_bytes(s)) == s,
{
    vstd::bytes::lemma_auto_spec_u64_to_from_le_bytes();
    assert(vstd::bytes::spec_u64_to_le_bytes(spec_u64_from_le_bytes(s)) == s);
}

proof fn lemma_le32_of(s: Seq<u8>)
    requires
        s.len() == 4,
    ensures
        le32(spec_u32_from_le_bytes(s)) == s,
{
    vstd::bytes::lemma_auto_spec_u32_to_from_le_bytes();
    assert(vstd::bytes::spec_u32_to_le_bytes(spec_u32_from_le_bytes(s)) == s);
}

proof fn lemma_field_bytes_of(b: Seq<u8>, n: nat)
    requires
        b.len() == 8 * n,
    ensures
        field_bytes(Seq::new(n, |i: int| u64_at(b, 8 * i))) == b,
    decreases n,
{
    let s = Seq::new(n, |i: int| u64_at(b, 8 * i));
    if n == 0 {
        assert(b =~= Seq::<u8>::empty());
    } else {
        let m = (n - 1) as nat;
        let w: int = (8 * m) as int;
        let b0 = b.subrange(0, w);
        lemma_field_bytes_of(b0, m);
        assert forall|i: int| 0 <= i < m implies #[trigger] s.drop_last()[i] == u64_at(b0, 8 * i) by {
            assert(b0.subrange(8 * i, 8 * i + 8) =~= b.subrange(8 * i, 8 * i + 8));
        }
        assert(s.drop_last() =~= Seq::new(m, |i: int| u64_at(b0, 8 * i)));
        lemma_le64_of(b.subrange(w, w + 8));
        assert(b =~= b0 + b.subrange(w, w + 8));
    }
}

fn decode_particle(v: &[u8]) -> (p: ParticleRecord)
    requires
        v@.len() == 48,
    ensures
        field_bytes(particle_values(p)) == v@,
{
    let p = ParticleRecord {
        energy: read_le64(v, 0),
        pi_star: read_le64(v, 8),
        weight: read_le64(v, 16),
        s_yes: read_le64(v, 24),
        s_no: read_le64(v, 32),
        meta_score: read_le64(v, 40),
    };
    proof {
        lemma_field_bytes_of(v@, 6);
        assert(particle_values(p) =~= Seq::new(6, |i: int| u64_at(v@, 8 * i)));
    }
    p
}

fn decode_neuron(v: &[u8]) -> (n: NeuronRecord)
    requires
        v@.len() == 24,
    ensures
        field_bytes(neuron_values(n)) == v@,
{
    let n = NeuronRecord { focus: read_le64(v, 0), karma: read_le64(v, 8), stake: read_le64(v, 16) };
    proof {
        lemma_field_bytes_of(v@, 3);
        assert(neuron_values(n) =~= Seq::new(3, |i: int| u64_at(v@, 8 * i)));
    }
    n
}

fn decode_u64(v: &[u8]) -> (x: u64)
    requires
        v@.len() == 8,
    ensures
        le64(x) == v@,
        x == u64_at(v@, 0),
{
    proof {
        lemma_le64_of(v@);
        assert(v@.subrange(0, 8) =~= v@);
    }
    read_le64(v, 0)
}

fn decode_signal(v: &[u8]) -> (r: SignalRecord)
    requires
        v@.len() == 76,
    ensures
        signal_bytes(r) == v@,
{
    let r = SignalRecord {
        neuron: read_array32(v, 0),
        link_count: read_le32(v, 32),
        block_height: read_le64(v, 36),
        proof_hash: read_array32(v, 44),
    };
    proof {
        lemma_le32_of(v@.subrange(32, 36));
        lemma_le64_of(v@.subrange(36, 44));
        assert(v@ =~= v@.subrange(0, 32) + v@.subrange(32, 36) + v@.subrange(36, 44) + v@.subrange(44, 76));
    }
    r
}

fn read_array64(s: &[u8], at: usize) -> (out: [u8; 64])
    requires
        at + 64 <= s@.len(),
    ensures
        out@ == s@.subrange(at as int, at + 64),
{
    let mut out = [0u8; 64];
    let mut i: usize = 0;
    while i < 64
        invariant
            i <= 64,
            at + 64 <= s.len(),
            forall|j: int| 0 <= j < i ==> out@[j] == s@[at + j],
        decreases 64 - i,
    {
        out[i] = s[at + i];
        i = i + 1;
    }
    assert(out@ =~= s@.subrange(at as int, at + 64));
    out
}

fn decode_intent(v: &[u8]) -> (r: IntentRecord)
    requires
        v@.len() == 136,
    ensures
        intent_bytes(r) == v@,
{
    let r = IntentRecord {
        neuron: read_array32(v, 0),
        h0: read_le64(v, 32),
        scope_hash: read_array32(v, 40),
        signature: read_array64(v, 72),
    };
    proof {
        lemma_le64_of(v@.subrange(32, 40));
        assert(v@ =~= v@.subrange(0, 32) + v@.subrange(32, 40) + v@.subrange(40, 72) + v@.subrange(72, 136));
    }
    r
}

fn decode_pair(v: &[u8]) -> (r: (Particle, Particle))
    requires
        v@.len() == 64,
    ensures
        r.0@ + r.1@ == v@,
{
    let r = (read_array32(v, 0), read_array32(v, 32));
    assert(v@ =~= v@.subrange(0, 32) + v@.subrange(32, 64));
    r
}

fn decode_adjacency(v: &[u8]) -> (l: Vec<Particle>)
    requires
        value_fits(2, v@),
    ensures
        list_bytes(l@.map_values(|p: Particle| p@)) == v@,
{
    let n = (v.len() - 8) / 32;
    assert(8 + 32 * n == v@.len()) by (nonlinear_arith)
        requires
            n == (v@.len() - 8) / 32,
            v@.len() >= 8,
            (v@.len() - 8) % 32 == 0,
    ;
    let mut l: Vec<Particle> = Vec::with_capacity(n);
    let mut i: usize = 0;
    while i < n
        invariant
            i <= n,
            n == (v@.len() - 8) / 32,
            v@.len() >= 8,
            8 + 32 * n == v@.len(),
            v@.len() == v.len(),
            l@.len() == i,
            particles_bytes(l@) == v@.subrange(8, 8 + 32 * i),
        decreases n - i,
    {
        assert(32 * i + 40 <= 8 + 32 * n) by (nonlinear_arith)
            requires
                i < n,
        ;
        let p = read_array32(v, 8 + 32 * i);
        let ghost prev = l@;
        l.push(p);
        assert(l@.drop_last() =~= prev);
        assert(v@.subrange(8, 8 + 32 * (i + 1)) =~= v@.subrange(8, 8 + 32 * i) + p@);
        i = i + 1;
    }
    proof {
        lemma_flat_particles(l@);
        lemma_le64_of(v@.subrange(0, 8));
        assert(v@ =~= v@.subrange(0, 8) + v@.subrange(8, 8 + 32 * n));
    }
    l
}

fn fits(key: &[u8], value: Option<&[u8]>) -> (b: bool)
    ensures
        b == restorable(key@, value_view(value)),
{
    if key.len() == 0 {
        return false;
    }
    let d = key[0];
    if !(d <= 4 || (9 <= d && d <= 16)) {
        return false;
    }
    let want: usize = if d == 0 { 1 } else if d == 9 || d == 10 { 9 } else { 33 };
    if key.len() != want {
        return false;
    }
    match value {
        None => true,
        Some(v) => {
            let n = v.len();
            if d == 1 {
                n == 48
            } else if d == 2 || d == 3 {
                if n < 8 || (n - 8) % 32 != 0 {
                    false
                } else {
                    let count = read_le64(v, 0);
                    ((n - 8) / 32) as u64 == count
                }
            } else if d == 4 {
                n == 24
            } else if d == 9 {
                n == 32
            } else if d == 10 {
                n == 76
            } else if d == 11 {
                n == 8 && read_le64(v, 0) < FIELD_MODULUS
            } else if d == 12 {
                n == 0
            } else if d == 13 || d == 16 {
                n == 8
            } else if d == 14 {
                n == 136
            } else if d == 15 {
                n == 64
            } else {
                false
            }
        },
    }
}

/// Bind `e` to `v`, or remove it.
fn put<V>(m: &mut OrderedMap<V>, e: &[u8], v: Option<V>)
    ensures
        final(m)@ == match v {
            Some(x) => old(m)@.insert(e@, x),
            None => old(m)@.remove(e@),
        },
{
    match v {
        Some(x) => m.set(copy_bytes(e), x),
        None => {
            m.remove(e);
        },
    }
}

/// One domain's records changed at one entity, and no other domain's.
proof fn lemma_one_domain(s: BbgState, ps: PruneState, s2: BbgState, ps2: PruneState, key: Seq<u8>, v: Option<Seq<u8>>)
    requires
        key.len() > 0,
        forall|d: u8| d != key[0] ==> #[trigger] domain_records(s2, ps2, d) == domain_records(s, ps, d),
        domain_records(s2, ps2, key[0]) == match v {
            Some(b) => domain_records(s, ps, key[0]).insert(key.drop_first(), b),
            None => domain_records(s, ps, key[0]).remove(key.drop_first()),
        },
    ensures
        forall|k: Seq<u8>| #[trigger]
            record_at(s2, ps2, k) == if k == key {
                v
            } else {
                record_at(s, ps, k)
            },
{
    assert forall|k: Seq<u8>| #[trigger]
        record_at(s2, ps2, k) == if k == key {
            v
        } else {
            record_at(s, ps, k)
        } by {
        if k.len() > 0 {
            if k[0] == key[0] && k.drop_first() == key.drop_first() {
                assert(k =~= seq![k[0]] + k.drop_first());
                assert(key =~= seq![key[0]] + key.drop_first());
            }
            if k[0] != key[0] {
                assert(domain_records(s2, ps2, k[0]) == domain_records(s, ps, k[0]));
            }
        }
    }
}


impl BbgState {
    /// Restore the record at `key` to `value`, or delete it where `value` is
    /// `None`. Refused, changing nothing, unless `key` names a restorable
    /// domain and an entity of its length, and `value` is a value of that
    /// domain.
    pub fn restore_record(&mut self, prune: &mut PruneState, key: &[u8], value: Option<&[u8]>) -> (r: Result<(), Error>)
        ensures
            r is Ok <==> restorable(key@, value_view(value)),
            r is Ok ==> forall|k: Seq<u8>| #[trigger]
                record_at(*final(self), *final(prune), k) == if k == key@ {
                    value_view(value)
                } else {
                    record_at(*old(self), *old(prune), k)
                },
            r is Err ==> *final(self) == *old(self) && *final(prune) == *old(prune),
            final(self).height_view() == old(self).height_view(),
            final(self).diameter_override_view() == old(self).diameter_override_view(),
    {
        if !fits(key, value) {
            return Err(Error::Arguments);
        }
        let d = key[0];
        let e = entity_of(key);
        let ghost s0 = *self;
        let ghost p0 = *prune;
        if d == 0 {
            proof {
                assert(domain_records(s0, p0, 0).remove(e@) =~= domain_records(s0, p0, 0));
            }
        } else if d == 2 || d == 3 {
            let dv = match value {
                Some(v) => Some(decode_adjacency(v)),
                None => None,
            };
            if d == 2 {
                put(&mut self.axons_out, &e, dv);
            } else {
                put(&mut self.axons_in, &e, dv);
            }
            proof {
                assert forall|dd: u8| dd != d implies #[trigger] domain_records(*self, *prune, dd)
                    == domain_records(s0, p0, dd) by {}
                match value_view(value) {
                    Some(b) => assert(domain_records(*self, *prune, d) =~= domain_records(s0, p0, d).insert(e@, b)),
                    None => assert(domain_records(*self, *prune, d) =~= domain_records(s0, p0, d).remove(e@)),
                }
            }
        } else if d == 1 {
            let dv = match value {
                Some(v) => Some(decode_particle(v)),
                None => None,
            };
            put(&mut self.particles, &e, dv);
            proof {
                assert forall|dd: u8| dd != 1 implies #[trigger] domain_records(*self, *prune, dd)
                    == domain_records(s0, p0, dd) by {}
                match value_view(value) {
                    Some(b) => assert(domain_records(*self, *prune, 1) =~= domain_records(s0, p0, 1).insert(e@, b)),
                    None => assert(domain_records(*self, *prune, 1) =~= domain_records(s0, p0, 1).remove(e@)),
                }
            }
        } else if d == 4 {
            let dv = match value {
                Some(v) => Some(decode_neuron(v)),
                None => None,
            };
            put(&mut self.neurons, &e, dv);
            proof {
                assert forall|dd: u8| dd != 4 implies #[trigger] domain_records(*self, *prune, dd)
                    == domain_records(s0, p0, dd) by {}
                match value_view(value) {
                    Some(b) => assert(domain_records(*self, *prune, 4) =~= domain_records(s0, p0, 4).insert(e@, b)),
                    None => assert(domain_records(*self, *prune, 4) =~= domain_records(s0, p0, 4).remove(e@)),
                }
            }
        } else if d == 9 {
            let dv = match value {
                Some(v) => {
                    proof {
                        assert(v@.subrange(0, 32) =~= v@);
                    }
                    Some(read_array32(v, 0))
                },
                None => None,
            };
            put(&mut self.time, &e, dv);
            proof {
                assert forall|dd: u8| dd != 9 implies #[trigger] domain_records(*self, *prune, dd)
                    == domain_records(s0, p0, dd) by {}
                match value_view(value) {
                    Some(b) => assert(domain_records(*self, *prune, 9) =~= domain_records(s0, p0, 9).insert(e@, b)),
                    None => assert(domain_records(*self, *prune, 9) =~= domain_records(s0, p0, 9).remove(e@)),
                }
            }
        } else if d == 10 {
            let dv = match value {
                Some(v) => Some(decode_signal(v)),
                None => None,
            };
            put(&mut self.signals, &e, dv);
            proof {
                assert forall|dd: u8| dd != 10 implies #[trigger] domain_records(*self, *prune, dd)
                    == domain_records(s0, p0, dd) by {}
                match value_view(value) {
                    Some(b) => assert(domain_records(*self, *prune, 10) =~= domain_records(s0, p0, 10).insert(e@, b)),
                    None => assert(domain_records(*self, *prune, 10) =~= domain_records(s0, p0, 10).remove(e@)),
                }
            }
        } else if d == 11 {
            let dv = match value {
                Some(v) => Some(decode_u64(v)),
                None => None,
            };
            put(&mut self.commitments, &e, dv);
            proof {
                assert forall|dd: u8| dd != 11 implies #[trigger] domain_records(*self, *prune, dd)
                    == domain_records(s0, p0, dd) by {}
                match value_view(value) {
                    Some(b) => assert(domain_records(*self, *prune, 11) =~= domain_records(s0, p0, 11).insert(e@, b)),
                    None => assert(domain_records(*self, *prune, 11) =~= domain_records(s0, p0, 11).remove(e@)),
                }
            }
        } else if d == 12 {
            let dv = match value {
                Some(_) => Some(true),
                None => None,
            };
            put(&mut self.nullifiers, &e, dv);
            proof {
                assert forall|dd: u8| dd != 12 implies #[trigger] domain_records(*self, *prune, dd)
                    == domain_records(s0, p0, dd) by {}
                match value_view(value) {
                    Some(b) => {
                        assert(b =~= Seq::<u8>::empty());
                        assert(self.nullifiers_view() =~= s0.nullifiers_view().insert(e@));
                        assert(domain_records(*self, *prune, 12) =~= domain_records(s0, p0, 12).insert(e@, b));
                    },
                    None => assert(domain_records(*self, *prune, 12) =~= domain_records(s0, p0, 12).remove(e@)),
                }
            }
        } else if d == 13 {
            let dv = match value {
                Some(v) => Some(decode_u64(v)),
                None => None,
            };
            put(&mut self.balances, &e, dv);
            proof {
                assert forall|dd: u8| dd != 13 implies #[trigger] domain_records(*self, *prune, dd)
                    == domain_records(s0, p0, dd) by {}
                match value_view(value) {
                    Some(b) => assert(domain_records(*self, *prune, 13) =~= domain_records(s0, p0, 13).insert(e@, b)),
                    None => assert(domain_records(*self, *prune, 13) =~= domain_records(s0, p0, 13).remove(e@)),
                }
            }
        } else if d == 14 {
            let dv = match value {
                Some(v) => Some(decode_intent(v)),
                None => None,
            };
            put(&mut self.intents, &e, dv);
            proof {
                assert forall|dd: u8| dd != 14 implies #[trigger] domain_records(*self, *prune, dd)
                    == domain_records(s0, p0, dd) by {}
                match value_view(value) {
                    Some(b) => assert(domain_records(*self, *prune, 14) =~= domain_records(s0, p0, 14).insert(e@, b)),
                    None => assert(domain_records(*self, *prune, 14) =~= domain_records(s0, p0, 14).remove(e@)),
                }
            }
        } else if d == 15 {
            let dv = match value {
                Some(v) => Some(decode_pair(v)),
                None => None,
            };
            put(&mut self.axon_edges, &e, dv);
            proof {
                assert forall|dd: u8| dd != 15 implies #[trigger] domain_records(*self, *prune, dd)
                    == domain_records(s0, p0, dd) by {}
                match value_view(value) {
                    Some(b) => assert(domain_records(*self, *prune, 15) =~= domain_records(s0, p0, 15).insert(e@, b)),
                    None => assert(domain_records(*self, *prune, 15) =~= domain_records(s0, p0, 15).remove(e@)),
                }
            }
        } else if d == 16 {
            let dv = match value {
                Some(v) => Some(decode_u64(v)),
                None => None,
            };
            put(&mut prune.last_touched, &e, dv);
            proof {
                assert forall|dd: u8| dd != 16 implies #[trigger] domain_records(*self, *prune, dd)
                    == domain_records(s0, p0, dd) by {}
                match value_view(value) {
                    Some(b) => assert(domain_records(*self, *prune, 16) =~= domain_records(s0, p0, 16).insert(e@, b)),
                    None => assert(domain_records(*self, *prune, 16) =~= domain_records(s0, p0, 16).remove(e@)),
                }
            }
        }
        proof {
            lemma_one_domain(s0, p0, *self, *prune, key@, value_view(value));
        }
        Ok(())
    }
}


proof fn lemma_particles_bytes_len(v: Seq<Particle>)
    ensures
        particles_bytes(v).len() == 32 * v.len(),
    decreases v.len(),
{
    if v.len() > 0 {
        lemma_particles_bytes_len(v.drop_last());
    }
}

pub open spec fn opt_view(o: Option<Vec<u8>>) -> Option<Seq<u8>> {
    match o {
        Some(v) => Some(v@),
        None => None,
    }
}

/// The length of the record at `key`; zero where there is none.
pub open spec fn record_len(s: BbgState, ps: PruneState, key: Seq<u8>) -> nat {
    match record_at(s, ps, key) {
        Some(b) => b.len(),
        None => 0,
    }
}

/// Why a key not yet captured cannot be: the log is full; the key names an
/// adjacency list whose record would not fit in the byte budget; the log's
/// bytes would exceed the budget; or the record read there could not be
/// restored.
pub open spec fn capture_error(count: nat, bytes: nat, s: BbgState, ps: PruneState, key: Seq<u8>) -> Option<Error> {
    if count >= MAX_KEYS {
        Some(Error::Limit("undo keys"))
    } else if key.len() > 0 && (key[0] == 2 || key[0] == 3) && record_len(s, ps, key) > MAX_BYTES {
        Some(Error::Limit("adjacency bytes"))
    } else if !restorable(key, record_at(s, ps, key)) {
        Some(Error::Arguments)
    } else if bytes + key.len() + record_len(s, ps, key) > MAX_BYTES {
        Some(Error::Limit("undo bytes"))
    } else {
        None
    }
}

/// The records a transition is about to change, as they were, and the height
/// they were at: restoring the log undoes the transition.
pub struct Undo {
    values: OrderedMap<Option<Vec<u8>>>,
    bytes: usize,
    height: u64,
}

impl Undo {
    /// The captured records, by key; `None` where there was no record.
    pub closed spec fn captured(&self) -> Map<Seq<u8>, Option<Seq<u8>>> {
        self.values@.map_values(|o: Option<Vec<u8>>| opt_view(o))
    }

    /// How many keys are captured.
    pub closed spec fn key_count(&self) -> nat {
        self.values@.dom().len()
    }

    /// The bytes of the captured keys and values, together.
    pub closed spec fn byte_count(&self) -> nat {
        self.bytes as nat
    }

    pub closed spec fn saved_height(&self) -> u64 {
        self.height
    }

    /// Every captured record can be restored, and the byte count is within
    /// the budget.
    pub closed spec fn wf(&self) -> bool {
        &&& forall|k: Seq<u8>| #[trigger]
            self.values@.dom().contains(k) ==> restorable(k, opt_view(self.values@[k]))
        &&& self.bytes <= MAX_BYTES
    }

    /// How many keys are captured.
    pub fn len(&self) -> (n: usize)
        ensures
            n == self.key_count(),
    {
        proof {
            use_type_invariant(&self.values);
            self.values.lemma_wf();
            lemma_unique_len(self.values.entries());
        }
        self.values.len()
    }

    /// An empty log for `state`.
    pub fn new(state: &BbgState) -> (u: Self)
        ensures
            u.wf(),
            u.captured() == Map::<Seq<u8>, Option<Seq<u8>>>::empty(),
            u.key_count() == 0,
            u.byte_count() == 0,
            u.saved_height() == state.height_view(),
    {
        let u = Undo { values: OrderedMap::new(), bytes: 0, height: state.height };
        assert(u.captured() =~= Map::<Seq<u8>, Option<Seq<u8>>>::empty());
        u
    }

    /// Capture the record at `key` as it is now, once: a key already
    /// captured keeps its first value.
    pub fn capture(&mut self, state: &BbgState, prune: &PruneState, key: &[u8]) -> (r: Result<(), Error>)
        requires
            old(self).wf(),
        ensures
            final(self).wf(),
            final(self).saved_height() == old(self).saved_height(),
            old(self).captured().dom().contains(key@) ==> r is Ok && final(self).captured() == old(self).captured()
                && final(self).key_count() == old(self).key_count()
                && final(self).byte_count() == old(self).byte_count(),
            !old(self).captured().dom().contains(key@) ==> r == match capture_error(
                old(self).key_count(),
                old(self).byte_count(),
                *state,
                *prune,
                key@,
            ) {
                Some(e) => Err(e),
                None => Ok(()),
            },
            !old(self).captured().dom().contains(key@) && r is Ok ==> {
                &&& final(self).captured() == old(self).captured().insert(key@, record_at(*state, *prune, key@))
                &&& final(self).key_count() == old(self).key_count() + 1
                &&& final(self).byte_count() == old(self).byte_count() + key@.len() + record_len(*state, *prune, key@)
            },
            r is Err ==> final(self).captured() == old(self).captured() && final(self).key_count() == old(self).key_count()
                && final(self).byte_count() == old(self).byte_count(),
    {
        proof {
            use_type_invariant(&self.values);
            self.values.lemma_wf();
            lemma_unique_len(self.values.entries());
        }
        if self.values.get(key).is_some() {
            return Ok(());
        }
        if self.values.len() >= MAX_KEYS {
            return Err(Error::Limit("undo keys"));
        }
        if key.len() > 0 && (key[0] == 2 || key[0] == 3) {
            let e = entity_of(key);
            let found = if key[0] == 2 { state.axons_out.get(&e) } else { state.axons_in.get(&e) };
            match found {
                Some(l) => {
                    proof {
                        lemma_flat_particles(l@);
                        lemma_particles_bytes_len(l@);
                        lemma_le64(l@.len() as u64);
                        assert(record_len(*state, *prune, key@) == 8 + 32 * l@.len());
                    }
                    if l.len() > (MAX_BYTES - 8) / 32 {
                        return Err(Error::Limit("adjacency bytes"));
                    }
                },
                None => {},
            }
        }
        let value = state.read_record(prune, key);
        let vlen: usize = match &value {
            Some(v) => v.len(),
            None => 0,
        };
        let vref: Option<&[u8]> = match &value {
            Some(v) => Some(v.as_slice()),
            None => None,
        };
        if !fits(key, vref) {
            return Err(Error::Arguments);
        }
        if key.len() > MAX_BYTES - self.bytes || vlen > MAX_BYTES - self.bytes - key.len() {
            return Err(Error::Limit("undo bytes"));
        }
        let ghost before = self.values@;
        self.bytes = self.bytes + key.len() + vlen;
        self.values.set(copy_bytes(key), value);
        proof {
            assert(self.captured() =~= old(self).captured().insert(key@, record_at(*state, *prune, key@)));
            assert(self.values@.dom() =~= before.dom().insert(key@));
        }
        proof {
            use_type_invariant(&self.values);
            self.values.lemma_wf();
            assert(self.values@.dom().len() == before.dom().len() + 1);
        }
        Ok(())
    }

    /// Put every captured record back, and the height.
    pub fn restore(&self, state: &mut BbgState, prune: &mut PruneState)
        requires
            self.wf(),
        ensures
            forall|k: Seq<u8>| #[trigger]
                record_at(*final(state), *final(prune), k) == if self.captured().dom().contains(k) {
                    self.captured()[k]
                } else {
                    record_at(*old(state), *old(prune), k)
                },
            final(state).height_view() == self.saved_height(),
            final(state).diameter_override_view() == old(state).diameter_override_view(),
    {
        proof {
            use_type_invariant(&self.values);
            self.values.lemma_wf();
        }
        let ghost s0 = *state;
        let ghost p0 = *prune;
        let ghost es = self.values.entries();
        let n = self.values.len();
        let mut i: usize = 0;
        while i < n
            invariant
                i <= n,
                n == es.len(),
                es == self.values.entries(),
                unique(es),
                self.values@ == map_of(es),
                self.wf(),
                state.diameter_override_view() == s0.diameter_override_view(),
                forall|k: Seq<u8>| #[trigger]
                    record_at(*state, *prune, k) == if map_of(es.take(i as int)).dom().contains(k) {
                        opt_view(map_of(es.take(i as int))[k])
                    } else {
                        record_at(s0, p0, k)
                    },
            decreases n - i,
        {
            let (k, v) = self.values.entry(i);
            let vref: Option<&[u8]> = match v {
                Some(b) => Some(b.as_slice()),
                None => None,
            };
            proof {
                lemma_map_of_index(es, i as int);
                assert(self.values@.dom().contains(k@));
            }
            let ghost mid_s = *state;
            let ghost mid_p = *prune;
            let r = state.restore_record(prune, k.as_slice(), vref);
            proof {
                assert(es.take(i + 1).drop_last() =~= es.take(i as int));
                assert(map_of(es.take(i + 1)) == map_of(es.take(i as int)).insert(es[i as int].0, es[i as int].1));
            }
            i = i + 1;
        }
        proof {
            assert(es.take(n as int) =~= es);
        }
        let ghost before = *state;
        state.height = self.height;
        proof {
            assert forall|d: u8| #[trigger] domain_records(*state, *prune, d) == domain_records(before, *prune, d) by {}
            assert forall|k: Seq<u8>| #[trigger] record_at(*state, *prune, k) == record_at(before, *prune, k) by {
                if k.len() > 0 {
                    assert(domain_records(*state, *prune, k[0]) == domain_records(before, *prune, k[0]));
                }
            }
        }
    }
}

/// Undo restores the state a transition started from: where a log captured
/// its records from `s`, and the transition from `s` to `t` changed no record
/// that it did not capture, restoring the log over `t` gives back every
/// record of `s`.
pub proof fn law_undo_restores(
    s: BbgState,
    ps: PruneState,
    t: BbgState,
    pt: PruneState,
    u: BbgState,
    pu: PruneState,
    captured: Map<Seq<u8>, Option<Seq<u8>>>,
)
    requires
        forall|k: Seq<u8>| #[trigger] captured.dom().contains(k) ==> captured[k] == record_at(s, ps, k),
        forall|k: Seq<u8>| !captured.dom().contains(k) ==> #[trigger] record_at(t, pt, k) == record_at(s, ps, k),
        forall|k: Seq<u8>| #[trigger]
            record_at(u, pu, k) == if captured.dom().contains(k) {
                captured[k]
            } else {
                record_at(t, pt, k)
            },
    ensures
        forall|k: Seq<u8>| #[trigger] record_at(u, pu, k) == record_at(s, ps, k),
{
    assert forall|k: Seq<u8>| #[trigger] record_at(u, pu, k) == record_at(s, ps, k) by {
        if !captured.dom().contains(k) {
            assert(record_at(t, pt, k) == record_at(s, ps, k));
        }
    }
}


/// A value as its record bytes.
pub trait RecordValue {
    spec fn record_bytes(&self) -> Seq<u8>;

    fn encode(&self) -> (b: Vec<u8>)
        ensures
            b@ == self.record_bytes(),
    ;
}

impl RecordValue for ParticleRecord {
    open spec fn record_bytes(&self) -> Seq<u8> {
        field_bytes(particle_values(*self))
    }

    fn encode(&self) -> (b: Vec<u8>) {
        particle(self)
    }
}

impl RecordValue for Vec<Particle> {
    open spec fn record_bytes(&self) -> Seq<u8> {
        list_bytes(self@.map_values(|p: Particle| p@))
    }

    fn encode(&self) -> (b: Vec<u8>) {
        proof {
            lemma_flat_particles(self@);
        }
        adjacency(self.as_slice())
    }
}

impl RecordValue for NeuronRecord {
    open spec fn record_bytes(&self) -> Seq<u8> {
        field_bytes(neuron_values(*self))
    }

    fn encode(&self) -> (b: Vec<u8>) {
        neuron(self)
    }
}

impl RecordValue for LocationRecord {
    open spec fn record_bytes(&self) -> Seq<u8> {
        location_bytes(*self)
    }

    fn encode(&self) -> (b: Vec<u8>) {
        let mut b: Vec<u8> = Vec::new();
        push_le32(&mut b, self.lat as u32);
        push_le32(&mut b, self.lon as u32);
        assert(b@ =~= location_bytes(*self));
        b
    }
}

impl RecordValue for CoinRecord {
    open spec fn record_bytes(&self) -> Seq<u8> {
        le64(self.total_supply)
    }

    fn encode(&self) -> (b: Vec<u8>) {
        le64_bytes(self.total_supply)
    }
}

impl RecordValue for CardRecord {
    open spec fn record_bytes(&self) -> Seq<u8> {
        card_bytes(*self)
    }

    fn encode(&self) -> (b: Vec<u8>) {
        pair_bytes(&self.owner, &self.particle)
    }
}

impl RecordValue for FileRecord {
    open spec fn record_bytes(&self) -> Seq<u8> {
        file_bytes(*self)
    }

    fn encode(&self) -> (b: Vec<u8>) {
        let mut b: Vec<u8> = Vec::new();
        b.push(if self.available { 1u8 } else { 0u8 });
        push_le32(&mut b, self.chunk_count);
        assert(b@ =~= file_bytes(*self));
        b
    }
}

impl RecordValue for [u8; 32] {
    open spec fn record_bytes(&self) -> Seq<u8> {
        self@
    }

    fn encode(&self) -> (b: Vec<u8>) {
        copy_bytes(self)
    }
}

impl RecordValue for SignalRecord {
    open spec fn record_bytes(&self) -> Seq<u8> {
        signal_bytes(*self)
    }

    fn encode(&self) -> (b: Vec<u8>) {
        signal_record_bytes(self)
    }
}

impl RecordValue for u64 {
    open spec fn record_bytes(&self) -> Seq<u8> {
        le64(*self)
    }

    fn encode(&self) -> (b: Vec<u8>) {
        le64_bytes(*self)
    }
}

impl RecordValue for bool {
    open spec fn record_bytes(&self) -> Seq<u8> {
        Seq::empty()
    }

    fn encode(&self) -> (b: Vec<u8>) {
        Vec::new()
    }
}

impl RecordValue for IntentRecord {
    open spec fn record_bytes(&self) -> Seq<u8> {
        intent_bytes(*self)
    }

    fn encode(&self) -> (b: Vec<u8>) {
        intent(self)
    }
}

impl RecordValue for (Particle, Particle) {
    open spec fn record_bytes(&self) -> Seq<u8> {
        self.0@ + self.1@
    }

    fn encode(&self) -> (b: Vec<u8>) {
        pair_bytes(&self.0, &self.1)
    }
}

/// `out` lists, strictly ascending by key, exactly the records of domains
/// 1 through `upto`, each at its key with its bytes.
pub open spec fn listing(out: Seq<Record>, s: BbgState, ps: PruneState, upto: u8) -> bool {
    &&& forall|i: int|
        0 <= i < out.len() ==> {
            &&& (#[trigger] out[i]).key@.len() > 0
            &&& 1 <= out[i].key@[0] <= upto
            &&& record_at(s, ps, out[i].key@) == Some(out[i].value@)
        }
    &&& forall|i: int, j: int| 0 <= i < j < out.len() ==> lex_lt(#[trigger] out[i].key@, #[trigger] out[j].key@)
    &&& forall|k: Seq<u8>|
        k.len() > 0 && 1 <= k[0] <= upto && #[trigger] record_at(s, ps, k) is Some ==> exists|i: int|
            0 <= i < out.len() && #[trigger] out[i].key@ == k
}

proof fn lemma_lex_same_first(d: u8, a: Seq<u8>, b: Seq<u8>)
    requires
        lex_lt(a, b),
    ensures
        lex_lt(seq![d] + a, seq![d] + b),
{
    assert((seq![d] + a).drop_first() =~= a);
    assert((seq![d] + b).drop_first() =~= b);
}

/// Append the records of domain `d`, held in `m`, in key order.
fn push_domain<V: RecordValue>(
    out: &mut Vec<Record>,
    d: u8,
    m: &OrderedMap<V>,
    Ghost(s): Ghost<BbgState>,
    Ghost(ps): Ghost<PruneState>,
)
    requires
        1 <= d <= 16,
        domain_records(s, ps, d) == m@.map_values(|v: V| v.record_bytes()),
        listing(old(out)@, s, ps, (d - 1) as u8),
    ensures
        listing(final(out)@, s, ps, d),
{
    proof {
        use_type_invariant(m);
        m.lemma_wf();
    }
    let ghost start = out@;
    let ghost es = m.entries();
    let n = m.len();
    let mut i: usize = 0;
    while i < n
        invariant
            i <= n,
            n == es.len(),
            es == m.entries(),
            out@.len() == start.len() + i,
            forall|j: int| 0 <= j < start.len() ==> #[trigger] out@[j] == start[j],
            forall|j: int|
                0 <= j < i ==> (#[trigger] out@[start.len() + j]).key@ == seq![d] + es[j].0
                    && out@[start.len() + j].value@ == es[j].1.record_bytes(),
        decreases n - i,
    {
        let (k, v) = m.entry(i);
        let mut key: Vec<u8> = Vec::new();
        key.push(d);
        append_bytes(&mut key, k.as_slice());
        assert(key@ =~= seq![d] + es[i as int].0);
        let value = v.encode();
        out.push(Record { key, value });
        i = i + 1;
    }
    proof {
        let o = out@;
        let b = start.len();
        assert forall|i: int| 0 <= i < o.len() implies {
            &&& (#[trigger] o[i]).key@.len() > 0
            &&& 1 <= o[i].key@[0] <= d
            &&& record_at(s, ps, o[i].key@) == Some(o[i].value@)
        } by {
            if i >= b {
                let j = i - b;
                assert(o[b + j] == o[i]);
                lemma_map_of_index(es, j);
                assert(o[i].key@.drop_first() =~= es[j].0);
            } else {
                assert(o[i] == start[i]);
            }
        }
        assert forall|i: int, j: int| 0 <= i < j < o.len() implies lex_lt(#[trigger] o[i].key@, #[trigger] o[j].key@) by {
            if j < b {
                assert(o[i] == start[i]);
                assert(o[j] == start[j]);
            } else if i < b {
                assert(o[i] == start[i]);
                assert(o[b + (j - b)] == o[j]);
                assert(o[j].key@[0] == d);
            } else {
                assert(o[b + (i - b)] == o[i]);
                assert(o[b + (j - b)] == o[j]);
                lemma_lex_same_first(d, es[i - b].0, es[j - b].0);
            }
        }
        assert forall|k: Seq<u8>|
            k.len() > 0 && 1 <= k[0] <= d && #[trigger] record_at(s, ps, k) is Some implies exists|i: int|
                0 <= i < o.len() && #[trigger] o[i].key@ == k by {
            if k[0] < d {
                let i = choose|i: int| 0 <= i < start.len() && #[trigger] start[i].key@ == k;
                assert(o[i] == start[i]);
            } else {
                lemma_map_of_has_key(es, k.drop_first());
                let j = choose|j: int| 0 <= j < es.len() && #[trigger] es[j].0 == k.drop_first();
                assert(o[b + j].key@ =~= k);
            }
        }
    }
}

impl BbgState {
    /// Every record of the state, strictly ascending by key.
    pub fn records(&self, prune: &PruneState) -> (r: Vec<Record>)
        ensures
            forall|i: int| 0 <= i < r@.len() ==> record_at(*self, *prune, (#[trigger] r@[i]).key@) == Some(r@[i].value@),
            forall|i: int, j: int| 0 <= i < j < r@.len() ==> lex_lt(#[trigger] r@[i].key@, #[trigger] r@[j].key@),
            forall|k: Seq<u8>| #[trigger] record_at(*self, *prune, k) is Some ==> exists|i: int|
                0 <= i < r@.len() && #[trigger] r@[i].key@ == k,
    {
        let ghost s = *self;
        let ghost ps = *prune;
        let mut out: Vec<Record> = Vec::new();
        proof {
            assert forall|k: Seq<u8>| k.len() > 0 && 1 <= k[0] <= 0 implies !(#[trigger] record_at(s, ps, k) is Some) by {}
            assert forall|k: Seq<u8>| #[trigger] domain_records(s, ps, 2).dom().contains(k) implies
                domain_records(s, ps, 2)[k] == self.axons_out@[k].record_bytes() by {}
            assert(domain_records(s, ps, 2) =~= self.axons_out@.map_values(|v: Vec<Particle>| v.record_bytes()));
            assert(domain_records(s, ps, 3) =~= self.axons_in@.map_values(|v: Vec<Particle>| v.record_bytes()));
            assert(domain_records(s, ps, 1) =~= self.particles@.map_values(|v: ParticleRecord| v.record_bytes()));
            assert(domain_records(s, ps, 4) =~= self.neurons@.map_values(|v: NeuronRecord| v.record_bytes()));
            assert(domain_records(s, ps, 5) =~= self.locations@.map_values(|v: LocationRecord| v.record_bytes()));
            assert(domain_records(s, ps, 6) =~= self.coins@.map_values(|v: CoinRecord| v.record_bytes()));
            assert(domain_records(s, ps, 7) =~= self.cards@.map_values(|v: CardRecord| v.record_bytes()));
            assert(domain_records(s, ps, 8) =~= self.files@.map_values(|v: FileRecord| v.record_bytes()));
            assert(domain_records(s, ps, 9) =~= self.time@.map_values(|v: Particle| v.record_bytes()));
            assert(domain_records(s, ps, 10) =~= self.signals@.map_values(|v: SignalRecord| v.record_bytes()));
            assert(domain_records(s, ps, 11) =~= self.commitments@.map_values(|v: u64| v.record_bytes()));
            assert(domain_records(s, ps, 12) =~= self.nullifiers@.map_values(|v: bool| v.record_bytes()));
            assert(domain_records(s, ps, 13) =~= self.balances@.map_values(|v: u64| v.record_bytes()));
            assert(domain_records(s, ps, 14) =~= self.intents@.map_values(|v: IntentRecord| v.record_bytes()));
            assert(domain_records(s, ps, 15) =~= self.axon_edges@.map_values(|v: (Particle, Particle)| v.record_bytes()));
            assert(domain_records(s, ps, 16) =~= prune.last_touched@.map_values(|v: u64| v.record_bytes()));
        }
        push_domain(&mut out, 1, &self.particles, Ghost(s), Ghost(ps));
        push_domain(&mut out, 2, &self.axons_out, Ghost(s), Ghost(ps));
        push_domain(&mut out, 3, &self.axons_in, Ghost(s), Ghost(ps));
        push_domain(&mut out, 4, &self.neurons, Ghost(s), Ghost(ps));
        push_domain(&mut out, 5, &self.locations, Ghost(s), Ghost(ps));
        push_domain(&mut out, 6, &self.coins, Ghost(s), Ghost(ps));
        push_domain(&mut out, 7, &self.cards, Ghost(s), Ghost(ps));
        push_domain(&mut out, 8, &self.files, Ghost(s), Ghost(ps));
        push_domain(&mut out, 9, &self.time, Ghost(s), Ghost(ps));
        push_domain(&mut out, 10, &self.signals, Ghost(s), Ghost(ps));
        push_domain(&mut out, 11, &self.commitments, Ghost(s), Ghost(ps));
        push_domain(&mut out, 12, &self.nullifiers, Ghost(s), Ghost(ps));
        push_domain(&mut out, 13, &self.balances, Ghost(s), Ghost(ps));
        push_domain(&mut out, 14, &self.intents, Ghost(s), Ghost(ps));
        push_domain(&mut out, 15, &self.axon_edges, Ghost(s), Ghost(ps));
        push_domain(&mut out, 16, &prune.last_touched, Ghost(s), Ghost(ps));
        proof {
            assert forall|k: Seq<u8>| #[trigger] record_at(s, ps, k) is Some implies k.len() > 0 && 1 <= k[0] <= 16 by {}
        }
        out
    }
}

} // verus!
