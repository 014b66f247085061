//! Canonical index of each relation within `GraphStats::relation_sizes`, in
//! the dimension order of the state root, with balances last.
use vstd::prelude::*;

verus! {

pub const PARTICLES: usize = 0;

pub const AXONS_OUT: usize = 1;

pub const AXONS_IN: usize = 2;

pub const NEURONS: usize = 3;

pub const LOCATIONS: usize = 4;

pub const COINS: usize = 5;

pub const CARDS: usize = 6;

pub const FILES: usize = 7;

pub const TIME: usize = 8;

pub const SIGNALS: usize = 9;

pub const BALANCES: usize = 10;

} // verus!
