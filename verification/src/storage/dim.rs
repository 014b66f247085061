//! Dimension identifiers: ten public dimensions, two private polynomials, the
//! intent records, and one local-only dimension.
use vstd::prelude::*;

verus! {

pub const PARTICLES: u8 = 0;

pub const AXONS_OUT: u8 = 1;

pub const AXONS_IN: u8 = 2;

pub const NEURONS: u8 = 3;

pub const LOCATIONS: u8 = 4;

pub const COINS: u8 = 5;

pub const CARDS: u8 = 6;

pub const FILES: u8 = 7;

pub const TIME: u8 = 8;

pub const SIGNALS: u8 = 9;

/// A(x): the private commitment polynomial.
pub const COMMITMENTS: u8 = 10;

/// N(x): the private nullifier polynomial.
pub const NULLIFIERS: u8 = 11;

/// Unsealed intent records.
pub const INTENTS: u8 = 12;

/// Local-only state: never committed and never written to a durable tier.
pub const EPHEMERAL: u8 = 13;

} // verus!
