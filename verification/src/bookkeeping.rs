//! What a search remembers of the coordinates it has seen: which ones, and
//! for each the coordinate from which it was found.
//!
//! Both are hashed collections, keyed by [`TilePos::code`].

use vstd::prelude::*;
use std::collections::{HashMap, HashSet};
use crate::position::{lemma_code_injective, lemma_code_surjective, TilePos};

verus! {

broadcast use vstd::std_specs::hash::group_hash_axioms;

/// The coordinates that a search has seen.
#[derive(Debug)]
pub struct Visited {
    codes: HashSet<u64>,
}

impl View for Visited {
    type V = Set<TilePos>;

    closed spec fn view(&self) -> Set<TilePos> {
        Set::new(|pos: TilePos| self.codes@.contains(pos.code()))
    }
}

impl Visited {
    pub fn new() -> (made: Visited)
        ensures
            made@ == Set::<TilePos>::empty(),
    {
        let made = Visited { codes: HashSet::new() };
        assert(made@ =~= Set::<TilePos>::empty());
        made
    }

    pub fn is_empty(&self) -> (empty: bool)
        ensures
            empty == (self@ == Set::<TilePos>::empty()),
    {
        let empty = self.codes.is_empty();
        proof {
            if empty {
                assert(self@ =~= Set::<TilePos>::empty());
            } else {
                let code = choose|code: u64| self.codes@.contains(code);
                lemma_code_surjective(code);
                assert(self@.contains(TilePos::from_code(code)));
            }
        }
        empty
    }

    pub fn contains(&self, pos: TilePos) -> (held: bool)
        ensures
            held == self@.contains(pos),
    {
        let code = pos.key();
        self.codes.contains(&code)
    }

    /// Adds `pos`. Returns whether it was new.
    pub fn insert(&mut self, pos: TilePos) -> (fresh: bool)
        ensures
            final(self)@ == old(self)@.insert(pos),
            fresh == !old(self)@.contains(pos),
    {
        let fresh = self.codes.insert(pos.key());
        proof {
            assert forall|other: TilePos| self@.contains(other) == old(self)@.insert(pos).contains(
                other,
            ) by {
                lemma_code_injective(other, pos);
            }
            assert(self@ =~= old(self)@.insert(pos));
        }
        fresh
    }

    pub fn clear(&mut self)
        ensures
            final(self)@ == Set::<TilePos>::empty(),
    {
        self.codes.clear();
        assert(self@ =~= Set::<TilePos>::empty());
    }
}

/// For each coordinate that a search has found, the coordinate from which
/// it found it.
#[derive(Debug)]
pub struct Parents {
    links: HashMap<u64, TilePos>,
}

impl View for Parents {
    type V = Map<TilePos, TilePos>;

    closed spec fn view(&self) -> Map<TilePos, TilePos> {
        Map::new(
            |pos: TilePos| self.links@.contains_key(pos.code()),
            |pos: TilePos| self.links@[pos.code()],
        )
    }
}

impl Parents {
    pub fn new() -> (made: Parents)
        ensures
            made@ == Map::<TilePos, TilePos>::empty(),
    {
        let made = Parents { links: HashMap::new() };
        assert(made@ =~= Map::<TilePos, TilePos>::empty());
        made
    }

    /// The coordinate from which `pos` was found, if it was found from one.
    pub fn get(&self, pos: TilePos) -> (parent: Option<TilePos>)
        ensures
            parent == if self@.contains_key(pos) {
                Some(self@[pos])
            } else {
                None
            },
    {
        let code = pos.key();
        match self.links.get(&code) {
            Some(parent) => Some(*parent),
            None => None,
        }
    }

    /// Records that `pos` was found from `parent`.
    pub fn insert(&mut self, pos: TilePos, parent: TilePos)
        ensures
            final(self)@ == old(self)@.insert(pos, parent),
    {
        self.links.insert(pos.key(), parent);
        proof {
            assert forall|other: TilePos|
                self@.contains_key(other) == old(self)@.insert(pos, parent).contains_key(
                    other,
                ) by {
                lemma_code_injective(other, pos);
            }
            assert forall|other: TilePos| self@.contains_key(other) implies self@[other] == old(
                self,
            )@.insert(pos, parent)[other] by {
                lemma_code_injective(other, pos);
            }
            assert(self@ =~= old(self)@.insert(pos, parent));
        }
    }

    pub fn clear(&mut self)
        ensures
            final(self)@ == Map::<TilePos, TilePos>::empty(),
    {
        self.links.clear();
        assert(self@ =~= Map::<TilePos, TilePos>::empty());
    }
}

} // verus!
