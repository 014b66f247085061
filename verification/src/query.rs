//! Dimension indices of the state, as queries name them.
use vstd::prelude::*;

verus! {

/// A state dimension, by namespace index (`Particles` is 0, `Balances` is 10).
#[derive(Clone, Copy, Debug, PartialEq, Eq)]
pub enum Dim {
    Particles,
    AxonsOut,
    AxonsIn,
    Neurons,
    Locations,
    Coins,
    Cards,
    Files,
    Time,
    Signals,
    Balances,
}

/// The namespace index of a dimension.
pub open spec fn dim_index(d: Dim) -> u64 {
    match d {
        Dim::Particles => 0,
        Dim::AxonsOut => 1,
        Dim::AxonsIn => 2,
        Dim::Neurons => 3,
        Dim::Locations => 4,
        Dim::Coins => 5,
        Dim::Cards => 6,
        Dim::Files => 7,
        Dim::Time => 8,
        Dim::Signals => 9,
        Dim::Balances => 10,
    }
}

/// The dimension with namespace index `v`, if there is one.
pub open spec fn dim_of(v: u64) -> Option<Dim> {
    if v == 0 {
        Some(Dim::Particles)
    } else if v == 1 {
        Some(Dim::AxonsOut)
    } else if v == 2 {
        Some(Dim::AxonsIn)
    } else if v == 3 {
        Some(Dim::Neurons)
    } else if v == 4 {
        Some(Dim::Locations)
    } else if v == 5 {
        Some(Dim::Coins)
    } else if v == 6 {
        Some(Dim::Cards)
    } else if v == 7 {
        Some(Dim::Files)
    } else if v == 8 {
        Some(Dim::Time)
    } else if v == 9 {
        Some(Dim::Signals)
    } else if v == 10 {
        Some(Dim::Balances)
    } else {
        None
    }
}

impl Dim {
    /// The dimension with namespace index `v`, if there is one.
    pub fn from_u64(v: u64) -> (r: Option<Self>)
        ensures
            r == dim_of(v),
    {
        match v {
            0 => Some(Dim::Particles),
            1 => Some(Dim::AxonsOut),
            2 => Some(Dim::AxonsIn),
            3 => Some(Dim::Neurons),
            4 => Some(Dim::Locations),
            5 => Some(Dim::Coins),
            6 => Some(Dim::Cards),
            7 => Some(Dim::Files),
            8 => Some(Dim::Time),
            9 => Some(Dim::Signals),
            10 => Some(Dim::Balances),
            _ => None,
        }
    }

    /// The namespace index of this dimension.
    pub fn index(self) -> (i: u64)
        ensures
            i == dim_index(self),
    {
        match self {
            Dim::Particles => 0,
            Dim::AxonsOut => 1,
            Dim::AxonsIn => 2,
            Dim::Neurons => 3,
            Dim::Locations => 4,
            Dim::Coins => 5,
            Dim::Cards => 6,
            Dim::Files => 7,
            Dim::Time => 8,
            Dim::Signals => 9,
            Dim::Balances => 10,
        }
    }
}

/// Index and dimension are inverse: every dimension is found again from its
/// index, exactly the indices 0 to 10 name a dimension, and each names the
/// dimension whose index it is.
pub proof fn law_dim_roundtrip(d: Dim, v: u64)
    ensures
        dim_of(dim_index(d)) == Some(d),
        dim_of(v) is Some <==> v <= 10,
        dim_of(v) matches Some(e) ==> dim_index(e) == v,
{
}


/// The dimensions in their declared namespace order: particles, outgoing and
/// incoming axons, neurons, locations, coins, cards, files, time, signals,
/// balances.
pub open spec fn namespace_order() -> Seq<Dim> {
    seq![
        Dim::Particles,
        Dim::AxonsOut,
        Dim::AxonsIn,
        Dim::Neurons,
        Dim::Locations,
        Dim::Coins,
        Dim::Cards,
        Dim::Files,
        Dim::Time,
        Dim::Signals,
        Dim::Balances,
    ]
}

/// A dimension's namespace index is its position in the namespace order, and
/// the index names it: coins are namespace 5 and cards namespace 6. Every
/// dimension has a position.
pub proof fn law_dim_index_is_namespace_position(d: Dim, i: int)
    requires
        0 <= i < namespace_order().len(),
    ensures
        namespace_order().len() == 11,
        dim_index(namespace_order()[i]) == i,
        dim_of(i as u64) == Some(namespace_order()[i]),
        namespace_order()[dim_index(d) as int] == d,
{
}

} // verus!
