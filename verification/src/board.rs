//! Scaffolding for a future consumer of parsed game records: a bitboard
//! representation of a playing surface, with per-player storage.

use vstd::prelude::*;

verus! {

/// A set of intersections, one bit each.
pub type Bitboards = u64;

/// One of the two players.
pub type Player = bool;

pub const BLACK: Player = true;

pub const WHITE: Player = false;

/// A pair of values, one per player.
pub struct PlayerDependant<T> {
    elems: [T; 2],
}

impl<T> PlayerDependant<T> {
    /// The value stored for player `p`.
    pub closed spec fn spec_get(&self, p: Player) -> T {
        if p {
            self.elems@[1]
        } else {
            self.elems@[0]
        }
    }

    /// Builds the pair from both players' values, `WHITE`'s first.
    pub fn new(elems: [T; 2]) -> (r: Self)
        ensures
            r.spec_get(false) == elems@[0],
            r.spec_get(true) == elems@[1],
    {
        Self { elems }
    }

    /// Reads the value stored for player `p`.
    pub fn get(&self, p: Player) -> (r: &T)
        ensures
            *r == self.spec_get(p),
    {
        if p {
            &self.elems[1]
        } else {
            &self.elems[0]
        }
    }
}

/// A playing surface: per-player bitboards and the surface dimensions.
pub struct Board {
    pub intersections: [PlayerDependant<Bitboards>; 6],
    pub size: (usize, usize),
}

} // verus!
