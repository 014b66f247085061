//! Signal and cyberlink types: the single input to the state.
use crate::types::NeuronId;
use vstd::prelude::*;

verus! {

pub type Cid = [u8; 32];

/// A cyberlink: source, target, token, conviction amount and valence.
#[derive(Debug, Clone, Copy, PartialEq, Eq)]
pub struct Cyberlink {
    pub from: Cid,
    pub to: Cid,
    pub token: Cid,
    pub amount: u64,
    /// Epistemic valence: -1, 0, or +1.
    pub valence: i8,
}

/// A nullifier movement: spend a conviction output and optionally create one.
#[derive(Debug, Clone, Copy, PartialEq, Eq)]
pub struct UtxoMove {
    pub nullifier: Cid,
    pub commitment: Option<(Cid, u64)>,
}

/// A signal: the atomic broadcast unit from a neuron.
#[derive(Debug, Clone, PartialEq, Eq)]
pub struct Signal {
    pub neuron: NeuronId,
    pub links: Vec<Cyberlink>,
    pub utxo_moves: Vec<UtxoMove>,
    pub height: u64,
}

/// Error of a state insert: the structural double-spend check only.
#[derive(Debug, Clone, Copy, PartialEq, Eq)]
pub enum InsertError {
    DoubleSpend,
}

} // verus!
