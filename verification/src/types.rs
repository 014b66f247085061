//! Core record types of the authenticated state.
use vstd::prelude::*;

verus! {

/// Particle: a 32-byte content hash.
pub type Particle = [u8; 32];

/// Neuron identifier: a 32-byte hash.
pub type NeuronId = [u8; 32];

/// A particle in the cybergraph. Axon-particles carry weight, reserves and
/// meta score; content-particles carry energy and focus. Unused fields are zero.
#[derive(Debug, Clone, Copy, PartialEq, Eq)]
pub struct ParticleRecord {
    pub energy: u64,
    pub pi_star: u64,
    pub weight: u64,
    pub s_yes: u64,
    pub s_no: u64,
    pub meta_score: u64,
}

impl ParticleRecord {
    pub fn zero() -> (r: Self)
        ensures
            r.energy == 0 && r.pi_star == 0 && r.weight == 0 && r.s_yes == 0 && r.s_no == 0
                && r.meta_score == 0,
    {
        ParticleRecord { energy: 0, pi_star: 0, weight: 0, s_yes: 0, s_no: 0, meta_score: 0 }
    }
}

/// A neuron (agent) in the cybergraph.
#[derive(Debug, Clone, Copy, PartialEq, Eq)]
pub struct NeuronRecord {
    pub focus: u64,
    pub karma: u64,
    pub stake: u64,
}

/// A geolocation record.
#[derive(Debug, Clone, Copy, PartialEq, Eq)]
pub struct LocationRecord {
    pub lat: i32,
    pub lon: i32,
}

/// A coin (token) record.
#[derive(Debug, Clone, Copy, PartialEq, Eq)]
pub struct CoinRecord {
    pub total_supply: u64,
}

/// A card: the current owner of the conviction box bound to an axon-particle.
#[derive(Debug, Clone, Copy, PartialEq, Eq)]
pub struct CardRecord {
    pub owner: NeuronId,
    pub particle: Particle,
}

/// A file availability record.
#[derive(Debug, Clone, Copy, PartialEq, Eq)]
pub struct FileRecord {
    pub available: bool,
    pub chunk_count: u32,
}

/// A signal finalization record committed to the signals dimension.
#[derive(Debug, Clone, Copy, PartialEq, Eq)]
pub struct SignalRecord {
    pub neuron: NeuronId,
    pub link_count: u32,
    pub block_height: u64,
    pub proof_hash: Particle,
}

/// An intent: a neuron's signed scope from a starting height.
#[derive(Debug, Clone, Copy, PartialEq, Eq)]
pub struct IntentRecord {
    pub neuron: NeuronId,
    pub h0: u64,
    pub scope_hash: Particle,
    pub signature: [u8; 64],
}

} // verus!
