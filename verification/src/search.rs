//! What one step of a search does, as a function from the state before to
//! the state after.
//!
//! [`SearchView`] is a search as contracts see it, and its spec functions
//! say what the operations of a [`Pathfinder`](crate::pathfinder::Pathfinder)
//! make of it and of the grid.

use vstd::prelude::*;
use crate::position::TilePos;
use crate::tile::Tile;
use crate::grid::{GridView, TileState};
use crate::algorithm::{lies_on, take_next, AlgorithmOption};

verus! {

/// What one call of `step` came to.
#[derive(Clone, Copy, Debug, PartialEq, Eq, Structural)]
pub enum Outcome {
    /// The search was complete before the call; nothing was done.
    Idle,
    /// The tile at this coordinate was taken and its neighbours were looked
    /// at.
    Expanded(TilePos),
    /// No tile was left to take: the search is complete and found no path.
    Exhausted,
    /// The tile at this coordinate was taken and is a goal: the search is
    /// complete and the path to it is marked.
    Found(TilePos),
}

/// A search as contracts see it.
#[verifier::ext_equal]
pub struct SearchView {
    /// The order in which the frontier hands out its tiles.
    pub option: AlgorithmOption,
    /// The frontier: the tiles found and not yet taken, in the order in
    /// which they were found.
    pub frontier: Seq<Tile>,
    /// The coordinates seen since the search was restarted.
    pub visited: Set<TilePos>,
    /// For each coordinate that was queued, the one from which it was found.
    pub parents: Map<TilePos, TilePos>,
    /// For each coordinate seen, after how many links from a seed it was
    /// seen. Nothing is computed from it; it shows that the parent links
    /// lead back and never round.
    pub depth: Map<TilePos, nat>,
    /// The coordinates of the start tiles, in the order in which they were
    /// reported.
    pub starts: Seq<TilePos>,
    /// The coordinates of the goal tiles, in the order in which they were
    /// reported.
    pub goals: Seq<TilePos>,
    /// The number of steps taken since the search was restarted.
    pub steps: nat,
    /// No further step does anything.
    pub complete: bool,
}

/// `tiles` without `pos`.
pub open spec fn without(tiles: Seq<TilePos>, pos: TilePos) -> Seq<TilePos> {
    if tiles.contains(pos) {
        tiles.remove(tiles.index_of(pos))
    } else {
        tiles
    }
}

/// The state of a tile that lies on the path found: a visited tile becomes
/// final, any other stays what it is.
pub open spec fn finalised(state: TileState) -> TileState {
    match state {
        TileState::Visited(distance) => TileState::Final(distance),
        other => other,
    }
}

/// The grid after the tile at `pos` has been looked at: if it was queued, it
/// is now visited.
pub open spec fn settled(grid: GridView, pos: TilePos) -> GridView {
    match grid.state(pos) {
        Some(TileState::Queued(distance)) => grid.with(pos, TileState::Visited(distance)),
        _ => grid,
    }
}

/// The coordinate that is reached from `from` over `hops` parent links, all
/// of them on the grid. There is none where the chain ends or leaves the
/// grid before.
pub open spec fn ancestor(
    parents: Map<TilePos, TilePos>,
    grid: GridView,
    from: TilePos,
    hops: nat,
) -> Option<TilePos>
    decreases hops,
{
    if hops == 0 {
        if grid.contains(from) {
            Some(from)
        } else {
            None
        }
    } else {
        match ancestor(parents, grid, from, (hops - 1) as nat) {
            Some(pos) => if parents.contains_key(pos) && grid.contains(parents[pos]) {
                Some(parents[pos])
            } else {
                None
            },
            None => None,
        }
    }
}

/// `pos` lies on the chain of parent links that starts at `from`.
pub open spec fn on_path(
    parents: Map<TilePos, TilePos>,
    grid: GridView,
    from: TilePos,
    pos: TilePos,
) -> bool {
    exists|hops: nat| ancestor(parents, grid, from, hops) == Some(pos)
}

/// The grid with the path marked that leads back from `from`: every visited
/// tile on the chain of parent links is final.
pub open spec fn traced(grid: GridView, parents: Map<TilePos, TilePos>, from: TilePos) -> GridView {
    GridView {
        tiles: Map::new(
            |pos: TilePos| grid.contains(pos),
            |pos: TilePos|
                if on_path(parents, grid, from, pos) {
                    finalised(grid.tiles[pos])
                } else {
                    grid.tiles[pos]
                },
        ),
        ..grid
    }
}

impl SearchView {
    /// Some tile of the frontier lies at `pos`.
    pub open spec fn queued(self, pos: TilePos) -> bool {
        exists|i: int| 0 <= i < self.frontier.len() && (#[trigger] self.frontier[i]).pos == pos
    }

    /// What holds of every search between two operations.
    ///
    /// The tiles of the frontier lie at coordinates that were seen, no two
    /// at the same. A parent link leads from a coordinate that was seen to
    /// one that was seen before it. No start and no goal is held twice.
    pub open spec fn inv(self) -> bool {
        &&& forall|i: int|
            0 <= i < self.frontier.len() ==> self.visited.contains((#[trigger] self.frontier[i]).pos)
        &&& forall|i: int, j: int|
            0 <= i < j < self.frontier.len() ==> (#[trigger] self.frontier[i]).pos != (
            #[trigger] self.frontier[j]).pos
        &&& forall|pos: TilePos|
            self.visited.contains(pos) ==> #[trigger] self.depth.contains_key(pos)
        &&& forall|pos: TilePos| #[trigger]
            self.parents.contains_key(pos) ==> {
                &&& self.visited.contains(pos)
                &&& self.visited.contains(self.parents[pos])
                &&& self.depth[self.parents[pos]] < self.depth[pos]
            }
        &&& self.starts.no_duplicates()
        &&& self.goals.no_duplicates()
    }

    /// Every start and every tile of the frontier lies on `grid`.
    pub open spec fn fits(self, grid: GridView) -> bool {
        &&& forall|i: int| 0 <= i < self.starts.len() ==> grid.contains(#[trigger] self.starts[i])
        &&& lies_on(self.frontier, grid)
    }

    /// A search that has nothing seen, no start and no goal.
    pub open spec fn initial(option: AlgorithmOption) -> SearchView {
        SearchView {
            option,
            frontier: Seq::empty(),
            visited: Set::empty(),
            parents: Map::empty(),
            depth: Map::empty(),
            starts: Seq::empty(),
            goals: Seq::empty(),
            steps: 0,
            complete: false,
        }
    }

    /// The search after a restart with `option`: it keeps its starts and
    /// goals and forgets the rest.
    pub open spec fn restarted(self, option: AlgorithmOption) -> SearchView {
        SearchView { starts: self.starts, goals: self.goals, ..SearchView::initial(option) }
    }

    /// The search after a stop with `option`: restarted, and complete.
    pub open spec fn stopped(self, option: AlgorithmOption) -> SearchView {
        SearchView { complete: true, ..self.restarted(option) }
    }

    /// The search after it has forgotten its parent links.
    pub open spec fn unlinked(self) -> SearchView {
        SearchView { parents: Map::empty(), ..self }
    }

    /// The search after it has heard that the tile at `pos` is now in
    /// `state`: `pos` is a start exactly if `state` says so, and a goal
    /// exactly if `state` says so.
    pub open spec fn notified(self, pos: TilePos, state: TileState) -> SearchView {
        let starts = without(self.starts, pos);
        let goals = without(self.goals, pos);
        SearchView {
            starts: if state == TileState::Start {
                starts.push(pos)
            } else {
                starts
            },
            goals: if state == TileState::Goal {
                goals.push(pos)
            } else {
                goals
            },
            ..self
        }
    }

    /// The search after it has heard of `changes`, one after the other.
    pub open spec fn notified_all(self, changes: Seq<(TilePos, TileState)>) -> SearchView
        decreases changes.len(),
    {
        if changes.len() == 0 {
            self
        } else {
            self.notified_all(changes.drop_last()).notified(changes.last().0, changes.last().1)
        }
    }

    /// The search after the first thing a step does. Where nothing was seen
    /// yet and `seed` names one of the starts, that start is queued with its
    /// distance to the nearest goal and seen. Else nothing changes.
    pub open spec fn seeded(self, seed: Option<int>) -> SearchView {
        match seed {
            Some(index) => if self.visited == Set::<TilePos>::empty() && 0 <= index
                < self.starts.len() {
                let pos = self.starts[index];
                SearchView {
                    frontier: self.frontier.push(Tile::at(pos, self.goals)),
                    visited: self.visited.insert(pos),
                    depth: self.depth.insert(pos, 0),
                    ..self
                }
            } else {
                self
            },
            None => self,
        }
    }

    /// The search and the grid after the search, standing at `from`, has
    /// looked at the neighbour `to`.
    ///
    /// A coordinate that was seen before is passed over. Any other is seen
    /// now. If it lies on the grid and is no wall, it is queued with its
    /// distance to the nearest goal and linked to `from`, and if its tile
    /// was empty, the tile is now queued with that distance.
    pub open spec fn visit(self, grid: GridView, from: TilePos, to: TilePos) -> (
        SearchView,
        GridView,
    ) {
        if self.visited.contains(to) {
            (self, grid)
        } else {
            let seen = SearchView {
                visited: self.visited.insert(to),
                depth: self.depth.insert(to, self.depth[from] + 1),
                ..self
            };
            if !grid.contains(to) || grid.tiles[to] == TileState::Wall {
                (seen, grid)
            } else {
                let tile = Tile::at(to, self.goals);
                (
                    SearchView {
                        parents: seen.parents.insert(to, from),
                        frontier: seen.frontier.push(tile),
                        ..seen
                    },
                    if grid.tiles[to] == TileState::Empty {
                        grid.with(to, TileState::Queued(tile.distance))
                    } else {
                        grid
                    },
                )
            }
        }
    }

    /// The search and the grid after the search has looked at the first
    /// `count` neighbours of `from`, in the order `+x`, `-x`, `+y`, `-y`.
    pub open spec fn expand(self, grid: GridView, from: TilePos, count: nat) -> (
        SearchView,
        GridView,
    )
        decreases count,
    {
        if count == 0 || count > 4 {
            (self, grid)
        } else {
            let (search, grid) = self.expand(grid, from, (count - 1) as nat);
            search.visit(grid, from, from.adjacent()[count - 1])
        }
    }

    /// The search and the grid after the search has dealt with what its
    /// frontier handed out.
    ///
    /// With no tile, the search is complete. With a tile at a goal, the
    /// search is complete and the path back from it is marked. With any
    /// other tile, its four neighbours are looked at and the tile is
    /// settled. The step is counted in each case.
    pub open spec fn advanced(self, grid: GridView, taken: Option<Tile>) -> (SearchView, GridView) {
        match taken {
            None => (SearchView { complete: true, steps: self.steps + 1, ..self }, grid),
            Some(tile) => if self.goals.contains(tile.pos) {
                (
                    SearchView { complete: true, steps: self.steps + 1, ..self },
                    traced(grid, self.parents, tile.pos),
                )
            } else {
                let (search, grid) = self.expand(grid, tile.pos, 4);
                (SearchView { steps: search.steps + 1, ..search }, settled(grid, tile.pos))
            },
        }
    }

    /// What the outcome of a step is called when the frontier handed out
    /// `taken`.
    pub open spec fn verdict(self, taken: Option<Tile>) -> Outcome {
        match taken {
            None => Outcome::Exhausted,
            Some(tile) => if self.goals.contains(tile.pos) {
                Outcome::Found(tile.pos)
            } else {
                Outcome::Expanded(tile.pos)
            },
        }
    }

    /// The tile that a step takes from the frontier, if it takes one.
    /// `seed` and `chance` are what the random source gave for the choice of
    /// a start and for the choice of a tile.
    pub open spec fn taken(self, seed: Option<int>, chance: Option<int>) -> Option<Tile> {
        let seeded = self.seeded(seed);
        take_next(seeded.option, seeded.frontier, chance).0
    }

    /// The search and the grid after one step.
    ///
    /// A complete search stays as it is, and so does the grid. Any other is
    /// seeded, hands out a tile of its frontier and deals with it.
    pub open spec fn step(self, grid: GridView, seed: Option<int>, chance: Option<int>) -> (
        SearchView,
        GridView,
    ) {
        if self.complete {
            (self, grid)
        } else {
            let seeded = self.seeded(seed);
            let (taken, rest) = take_next(seeded.option, seeded.frontier, chance);
            SearchView { frontier: rest, ..seeded }.advanced(grid, taken)
        }
    }

    /// What a step comes to.
    pub open spec fn outcome(self, seed: Option<int>, chance: Option<int>) -> Outcome {
        if self.complete {
            Outcome::Idle
        } else {
            self.seeded(seed).verdict(self.taken(seed, chance))
        }
    }
}

} // verus!
