//! A small set of coordinates that remembers the order of insertion.
//!
//! The start and goal tiles of a search are kept in such sets: there are
//! only a handful of them, one of them has to be picked by its number, and
//! the distance to the nearest one has to be found by walking all of them.

use vstd::prelude::*;
use crate::position::TilePos;

verus! {

/// A set of coordinates, each held once, in the order in which they came.
#[derive(Debug)]
pub struct TileSet {
    tiles: Vec<TilePos>,
}

impl View for TileSet {
    type V = Seq<TilePos>;

    /// The members in the order of insertion.
    closed spec fn view(&self) -> Seq<TilePos> {
        self.tiles@
    }
}

impl TileSet {
    /// No coordinate is held twice.
    pub open spec fn wf(&self) -> bool {
        self@.no_duplicates()
    }

    pub fn new() -> (set: TileSet)
        ensures
            set@ == Seq::<TilePos>::empty(),
            set.wf(),
    {
        TileSet { tiles: Vec::new() }
    }

    pub fn len(&self) -> (n: usize)
        ensures
            n == self@.len(),
    {
        self.tiles.len()
    }

    pub fn is_empty(&self) -> (empty: bool)
        ensures
            empty == (self@.len() == 0),
    {
        self.tiles.len() == 0
    }

    /// The member that came `index`-th among those still held.
    pub fn get(&self, index: usize) -> (pos: TilePos)
        requires
            index < self@.len(),
        ensures
            pos == self@[index as int],
    {
        self.tiles[index]
    }

    /// Where `pos` is held, if it is.
    pub fn position(&self, pos: TilePos) -> (found: Option<usize>)
        ensures
            match found {
                Some(index) => index < self@.len() && self@[index as int] == pos && forall|j: int|
                    0 <= j < index ==> self@[j] != pos,
                None => !self@.contains(pos),
            },
    {
        let mut index: usize = 0;
        while index < self.tiles.len()
            invariant
                index <= self.tiles@.len(),
                forall|j: int| 0 <= j < index ==> self.tiles@[j] != pos,
            decreases self.tiles@.len() - index,
        {
            if self.tiles[index] == pos {
                return Some(index);
            }
            index += 1;
        }
        None
    }

    pub fn contains(&self, pos: TilePos) -> (held: bool)
        ensures
            held == self@.contains(pos),
    {
        self.position(pos).is_some()
    }

    /// Adds `pos` behind the members held so far, unless it is one of them.
    /// Returns whether it was added.
    pub fn insert(&mut self, pos: TilePos) -> (added: bool)
        requires
            old(self).wf(),
        ensures
            final(self).wf(),
            added == !old(self)@.contains(pos),
            final(self)@ == if added {
                old(self)@.push(pos)
            } else {
                old(self)@
            },
    {
        if self.contains(pos) {
            false
        } else {
            self.tiles.push(pos);
            true
        }
    }

    /// Takes `pos` out and keeps the others in their order. Returns whether
    /// it was held.
    pub fn remove(&mut self, pos: TilePos) -> (removed: bool)
        requires
            old(self).wf(),
        ensures
            final(self).wf(),
            removed == old(self)@.contains(pos),
            !final(self)@.contains(pos),
            final(self)@ == if removed {
                old(self)@.remove(old(self)@.index_of(pos))
            } else {
                old(self)@
            },
    {
        match self.position(pos) {
            Some(index) => {
                let ghost before = self@;
                self.tiles.remove(index);
                assert(before.index_of(pos) == index);
                assert(!self@.contains(pos)) by {
                    if self@.contains(pos) {
                        let j = choose|j: int| 0 <= j < self@.len() && self@[j] == pos;
                        assert(before[if j < index { j } else { j + 1 }] == pos);
                    }
                }
                assert(self@.no_duplicates()) by {
                    assert forall|i: int, j: int|
                        0 <= i < self@.len() && 0 <= j < self@.len() && i != j implies self@[i]
                        != self@[j] by {
                        let bi = if i < index { i } else { i + 1 };
                        let bj = if j < index { j } else { j + 1 };
                        assert(before[bi] != before[bj]);
                    }
                }
                true
            },
            None => false,
        }
    }

    pub fn clear(&mut self)
        ensures
            final(self)@ == Seq::<TilePos>::empty(),
            final(self).wf(),
    {
        self.tiles.clear();
    }
}

} // verus!
