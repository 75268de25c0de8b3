//! A coordinate together with its distance to the nearest goal.
//!
//! Two tiles are equal when they lie at the same coordinate, whatever
//! distance each carries: a coordinate is one tile, however often its
//! distance was worked out. Tiles are ordered by distance alone, the nearer
//! one being the greater, so that a nearer tile is taken first.

use vstd::prelude::*;
use std::cmp::Ordering;
use vstd::std_specs::cmp::PartialEqSpecImpl;
use vstd::std_specs::cmp::PartialOrdSpecImpl;
use crate::position::TilePos;
use crate::tile_set::TileSet;
use crate::distance::{euclid, heuristic, nearest};

verus! {

/// A coordinate and its distance to the nearest goal, as it was when the
/// tile was made.
#[derive(Clone, Copy, Debug, Default)]
pub struct Tile {
    pub pos: TilePos,
    pub distance: u64,
}

impl Tile {
    /// The tiles around `pos` as [`Tile::neighbors`] gives them.
    pub open spec fn around(pos: TilePos, goals: Seq<TilePos>) -> Seq<Tile> {
        Seq::new(4, |i: int| Tile::at(pos.adjacent()[i], goals))
    }

    /// The tile at `pos` as [`Tile::new`] gives it.
    pub open spec fn at(pos: TilePos, goals: Seq<TilePos>) -> Tile {
        Tile { pos, distance: heuristic(pos, goals) as u64 }
    }

    /// The tile at `pos`, with its distance to the nearest of `goals`, or 0
    /// where there is no goal.
    pub fn new(pos: TilePos, goals: &TileSet) -> (tile: Tile)
        ensures
            tile == Tile::at(pos, goals@),
            tile.pos == pos,
            tile.distance == heuristic(pos, goals@),
            goals@.len() == 0 ==> tile.distance == 0,
            goals@.len() > 0 ==> exists|i: int|
                0 <= i < goals@.len() && tile.distance == euclid(pos, #[trigger] goals@[i]),
            forall|i: int| 0 <= i < goals@.len() ==> tile.distance <= euclid(pos, #[trigger] goals@[i]),
    {
        Tile { pos, distance: nearest(pos, goals) }
    }

    /// The tile at `pos` with distance 0, for looking a coordinate up.
    pub fn zero(pos: TilePos) -> (tile: Tile)
        ensures
            tile == (Tile { pos, distance: 0 }),
    {
        Tile { pos, distance: 0 }
    }

    /// The four tiles next to this one, in the order `+x`, `-x`, `+y`, `-y`,
    /// each with its own distance to the nearest of `goals`. At an edge of
    /// the coordinate space the tile is its own neighbour.
    pub fn neighbors(&self, goals: &TileSet) -> (around: [Tile; 4])
        ensures
            around@ == Tile::around(self.pos, goals@),
    {
        let next = self.pos.neighbors();
        let around = [
            Tile::new(next[0], goals),
            Tile::new(next[1], goals),
            Tile::new(next[2], goals),
            Tile::new(next[3], goals),
        ];
        assert(around@ =~= Tile::around(self.pos, goals@));
        around
    }
}

impl PartialEq for Tile {
    fn eq(&self, other: &Tile) -> (same: bool) {
        self.pos == other.pos
    }
}

impl PartialEqSpecImpl for Tile {
    open spec fn obeys_eq_spec() -> bool {
        true
    }

    open spec fn eq_spec(&self, other: &Tile) -> bool {
        self.pos == other.pos
    }
}

impl Eq for Tile {

}

impl PartialOrd for Tile {
    fn partial_cmp(&self, other: &Tile) -> (order: Option<Ordering>) {
        if self.distance < other.distance {
            Some(Ordering::Greater)
        } else if self.distance > other.distance {
            Some(Ordering::Less)
        } else {
            Some(Ordering::Equal)
        }
    }
}

impl PartialOrdSpecImpl for Tile {
    open spec fn obeys_partial_cmp_spec() -> bool {
        true
    }

    open spec fn partial_cmp_spec(&self, other: &Tile) -> Option<Ordering> {
        if self.distance < other.distance {
            Some(Ordering::Greater)
        } else if self.distance > other.distance {
            Some(Ordering::Less)
        } else {
            Some(Ordering::Equal)
        }
    }
}

} // verus!
