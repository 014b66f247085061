//! Native transitions: their errors and snapshots, and the exact byte records
//! that persist the state.
use crate::bytes::{append_bytes, le32, le64, lemma_le64, push_le64, read_le32};
use crate::signal::Signal;
use crate::storage::access::{field_bytes, lemma_field_bytes_len, serialize_field};
use crate::types::{IntentRecord, NeuronRecord, Particle, ParticleRecord, SignalRecord};
use vstd::bytes::spec_u32_from_le_bytes;
use vstd::prelude::*;

verus! {

pub const MAX_KEYS: usize = 65_536;

pub const MAX_BYTES: usize = 8_388_608;

pub const MAX_EVENTS: usize = 64;

/// Identifies the typed record layout and its commitment semantics together.
pub const NATIVE_RECORD_VERSION: u32 = 2;

#[derive(Debug, Clone, Copy, PartialEq, Eq)]
pub enum Error {
    Arguments,
    Accumulator,
    DoubleSpend,
    Overflow(&'static str),
    Limit(&'static str),
    PositionExists,
}

/// One native change: a signal at its position with its header, or an intent.
pub enum NativeChange<'a> {
    Signal { signal: &'a Signal, position: u64, header: &'a SignalRecord },
    Intent(&'a IntentRecord),
}

/// The state height and root after a transition.
#[derive(Debug, Clone, Copy, PartialEq, Eq)]
pub struct Snapshot {
    pub height: u64,
    pub root: Particle,
}

#[derive(Debug, Clone, Copy, PartialEq, Eq)]
pub enum MetadataError {
    Malformed,
    Unsupported(u32),
}

/// What the metadata framing check gives: the version, when it is one this
/// reader knows and the record has the exact length its optional diameter
/// flag (byte 84) asks for.
pub open spec fn metadata_version(b: Seq<u8>) -> Result<u32, MetadataError> {
    if b.len() < 4 {
        Err(MetadataError::Malformed)
    } else {
        let v = spec_u32_from_le_bytes(b.subrange(0, 4));
        if v != 1 && v != NATIVE_RECORD_VERSION {
            Err(MetadataError::Unsupported(v))
        } else if (b.len() == 102 && b[84] == 0) || (b.len() == 110 && b[84] == 1) {
            Ok(v)
        } else {
            Err(MetadataError::Malformed)
        }
    }
}

/// Metadata framed as written is read back at its version: a record of the
/// version's four little-endian bytes, then `rest`, with the diameter flag at
/// byte 84 saying whether the eight diameter bytes are present (102 bytes
/// without, 110 with), is accepted at version 1 and at the current version 2,
/// and refused as unsupported at every other version.
pub proof fn law_framed_metadata_reads_its_version(v: u32, rest: Seq<u8>)
    requires
        (rest.len() == 98 && rest[80] == 0) || (rest.len() == 106 && rest[80] == 1),
    ensures
        metadata_version(le32(v) + rest) == if v == 1 || v == 2 {
            Ok::<u32, MetadataError>(v)
        } else {
            Err(MetadataError::Unsupported(v))
        },
{
    let b = le32(v) + rest;
    crate::bytes::lemma_le32(v);
    assert(b.subrange(0, 4) =~= le32(v));
    assert(b[84] == rest[80]);
}

/// Only framed metadata is read: a record shorter than its version word, or
/// of a known version whose length disagrees with its diameter flag, is
/// malformed; an accepted record is framed and at version 1 or 2.
pub proof fn law_metadata_needs_its_framing(b: Seq<u8>)
    ensures
        b.len() < 4 ==> metadata_version(b) == Err::<u32, MetadataError>(MetadataError::Malformed),
        metadata_version(b) matches Ok(v) ==> (v == 1 || v == 2) && ((b.len() == 102 && b[84] == 0) || (b.len()
            == 110 && b[84] == 1)),
        b.len() >= 4 && !((b.len() == 102 && b[84] == 0) || (b.len() == 110 && b[84] == 1)) ==> metadata_version(b)
            is Err,
{
}

/// Validate the metadata framing before an owning adapter begins replay.
pub fn native_metadata_version(bytes: &[u8]) -> (r: Result<u32, MetadataError>)
    ensures
        r == metadata_version(bytes@),
{
    if bytes.len() < 4 {
        return Err(MetadataError::Malformed);
    }
    let version = read_le32(bytes, 0);
    if version != 1 && version != NATIVE_RECORD_VERSION {
        return Err(MetadataError::Unsupported(version));
    }
    let framed = (bytes.len() == 102 && bytes[84] == 0) || (bytes.len() == 110 && bytes[84] == 1);
    if !framed {
        return Err(MetadataError::Malformed);
    }
    Ok(version)
}

/// One persisted record.
#[derive(Debug, Clone, PartialEq, Eq)]
pub struct Record {
    pub key: Vec<u8>,
    pub value: Vec<u8>,
}

/// One change to a persisted record: a new value, or a deletion.
#[derive(Debug, Clone, PartialEq, Eq)]
pub struct RecordChange {
    pub key: Vec<u8>,
    pub value: Option<Vec<u8>>,
}

/// A record key: the domain byte, then the entity.
pub open spec fn record_key(domain: u8, entity: Seq<u8>) -> Seq<u8> {
    seq![domain] + entity
}

pub fn key(domain: u8, entity: &[u8]) -> (k: Vec<u8>)
    ensures
        k@ == record_key(domain, entity@),
{
    let mut k: Vec<u8> = Vec::new();
    k.push(domain);
    append_bytes(&mut k, entity);
    assert(k@ =~= record_key(domain, entity@));
    k
}

/// Integers as eight little-endian bytes each.
pub fn integers(values: &[u64]) -> (b: Vec<u8>)
    ensures
        b@ == field_bytes(values@),
        b@.len() == 8 * values@.len(),
{
    proof {
        lemma_field_bytes_len(values@);
    }
    serialize_field(values)
}

pub open spec fn particle_values(p: ParticleRecord) -> Seq<u64> {
    seq![p.energy, p.pi_star, p.weight, p.s_yes, p.s_no, p.meta_score]
}

/// A particle record's bytes.
pub fn particle(p: &ParticleRecord) -> (b: Vec<u8>)
    ensures
        b@ == field_bytes(particle_values(*p)),
        b@.len() == 48,
{
    let values: Vec<u64> = vec![p.energy, p.pi_star, p.weight, p.s_yes, p.s_no, p.meta_score];
    assert(values@ =~= particle_values(*p));
    integers(values.as_slice())
}

pub open spec fn neuron_values(n: NeuronRecord) -> Seq<u64> {
    seq![n.focus, n.karma, n.stake]
}

/// A neuron record's bytes.
pub fn neuron(n: &NeuronRecord) -> (b: Vec<u8>)
    ensures
        b@ == field_bytes(neuron_values(*n)),
        b@.len() == 24,
{
    let values: Vec<u64> = vec![n.focus, n.karma, n.stake];
    assert(values@ =~= neuron_values(*n));
    integers(values.as_slice())
}

/// The particles of an adjacency list, concatenated.
pub open spec fn particles_bytes(entries: Seq<Particle>) -> Seq<u8>
    decreases entries.len(),
{
    if entries.len() == 0 {
        Seq::empty()
    } else {
        particles_bytes(entries.drop_last()) + entries.last()@
    }
}

/// An adjacency list's bytes: its length, then its particles.
pub fn adjacency(entries: &[Particle]) -> (b: Vec<u8>)
    ensures
        b@ == le64(entries@.len() as u64) + particles_bytes(entries@),
{
    let mut b: Vec<u8> = Vec::new();
    push_le64(&mut b, entries.len() as u64);
    let ghost head = b@;
    let mut i: usize = 0;
    while i < entries.len()
        invariant
            i <= entries@.len(),
            head == le64(entries@.len() as u64),
            b@ == head + particles_bytes(entries@.take(i as int)),
        decreases entries@.len() - i,
    {
        append_bytes(&mut b, &entries[i]);
        assert(entries@.take(i + 1).drop_last() =~= entries@.take(i as int));
        i = i + 1;
    }
    assert(entries@.take(i as int) =~= entries@);
    b
}

/// An intent record's bytes: neuron, start height, scope hash, signature.
pub open spec fn intent_bytes(i: IntentRecord) -> Seq<u8> {
    i.neuron@ + le64(i.h0) + i.scope_hash@ + i.signature@
}

pub fn intent(i: &IntentRecord) -> (b: Vec<u8>)
    ensures
        b@ == intent_bytes(*i),
        b@.len() == 136,
{
    let mut b: Vec<u8> = Vec::with_capacity(136);
    append_bytes(&mut b, &i.neuron);
    push_le64(&mut b, i.h0);
    append_bytes(&mut b, &i.scope_hash);
    append_bytes(&mut b, &i.signature);
    proof {
        lemma_le64(i.h0);
    }
    b
}

} // verus!
