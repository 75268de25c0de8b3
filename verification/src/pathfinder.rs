//! The search engine: a search that is driven one step at a time.

use vstd::prelude::*;
use crate::position::TilePos;
use crate::tile::Tile;
use crate::tile_set::TileSet;
use crate::grid::{Grid, GridView, TileState};
use crate::chance::{as_chance, choose_index, fair};
use crate::algorithm::{take_next, Algorithm, AlgorithmOption, Frontier};
use crate::bookkeeping::{Parents, Visited};
use crate::search::{ancestor, finalised, on_path, settled, traced, Outcome, SearchView};
use crate::preserved::{
    lemma_advanced_inv, lemma_expand_inv, lemma_notified_inv, lemma_restarted_inv,
    lemma_seeded_inv, lemma_seeded_keeps_inv, lemma_step_inv, lemma_taken_inv,
    lemma_unlinked_inv, lemma_visit_inv,
};

verus! {

/// A search on a grid, driven by calls of [`Pathfinder::step`].
///
/// It owns the frontier, the record of what it has seen and from where, and
/// the coordinates of the start and goal tiles, which it learns from
/// [`Pathfinder::notify`]. The grid stays with the caller and is handed in
/// with every step.
pub struct Pathfinder {
    algorithm: Frontier,
    visited: Visited,
    parents: Parents,
    start_tiles: TileSet,
    goal_tiles: TileSet,
    step: usize,
    complete: bool,
    depth: Ghost<Map<TilePos, nat>>,
}

impl View for Pathfinder {
    type V = SearchView;

    closed spec fn view(&self) -> SearchView {
        SearchView {
            option: self.algorithm.option(),
            frontier: self.algorithm.queue(),
            visited: self.visited@,
            parents: self.parents@,
            depth: self.depth@,
            starts: self.start_tiles@,
            goals: self.goal_tiles@,
            steps: self.step as nat,
            complete: self.complete,
        }
    }
}

/// `pos` is reached from `from` over fewer than `hops` parent links.
spec fn reached(
    parents: Map<TilePos, TilePos>,
    grid: GridView,
    from: TilePos,
    hops: nat,
    pos: TilePos,
) -> bool {
    exists|k: nat| k < hops && ancestor(parents, grid, from, k) == Some(pos)
}

/// Where a chain of parent links has ended, it has ended for good.
proof fn lemma_chain_stays_ended(
    parents: Map<TilePos, TilePos>,
    grid: GridView,
    from: TilePos,
    end: nat,
    later: nat,
)
    requires
        ancestor(parents, grid, from, end) is None,
        end <= later,
    ensures
        ancestor(parents, grid, from, later) is None,
    decreases later,
{
    if end < later {
        lemma_chain_stays_ended(parents, grid, from, end, (later - 1) as nat);
    }
}

/// Puts the tile at `pos` from queued to visited.
fn settle(grid: &mut Grid, pos: TilePos)
    requires
        old(grid).wf(),
    ensures
        final(grid).wf(),
        final(grid)@ == settled(old(grid)@, pos),
{
    match grid.get(pos) {
        Some(TileState::Queued(distance)) => {
            grid.set(pos, TileState::Visited(distance));
        },
        _ => {},
    }
}

impl Pathfinder {
    /// The search keeps [`SearchView::inv`].
    pub open spec fn wf(&self) -> bool {
        self@.inv()
    }

    /// A search with the default strategy that has seen nothing and knows
    /// no start and no goal.
    pub fn new() -> (made: Pathfinder)
        ensures
            made.wf(),
            made@ == SearchView::initial(AlgorithmOption::BreadthFirst),
    {
        Pathfinder {
            algorithm: Frontier::new(AlgorithmOption::BreadthFirst),
            visited: Visited::new(),
            parents: Parents::new(),
            start_tiles: TileSet::new(),
            goal_tiles: TileSet::new(),
            step: 0,
            complete: false,
            depth: Ghost(Map::empty()),
        }
    }

    /// The number of steps taken since the last restart.
    pub fn step_count(&self) -> (steps: usize)
        ensures
            steps == self@.steps,
    {
        self.step
    }

    /// Whether the search is complete, so that a step does nothing.
    pub fn is_complete(&self) -> (complete: bool)
        ensures
            complete == self@.complete,
    {
        self.complete
    }

    /// The strategy of the frontier.
    pub fn strategy(&self) -> (option: AlgorithmOption)
        ensures
            option == self@.option,
    {
        self.algorithm.strategy()
    }

    /// The coordinates of the start tiles.
    pub fn start_tiles(&self) -> (tiles: &TileSet)
        ensures
            tiles@ == self@.starts,
    {
        &self.start_tiles
    }

    /// The coordinates of the goal tiles.
    pub fn goal_tiles(&self) -> (tiles: &TileSet)
        ensures
            tiles@ == self@.goals,
    {
        &self.goal_tiles
    }

    /// Whether the search has seen `pos` since the last restart.
    pub fn has_visited(&self, pos: TilePos) -> (seen: bool)
        ensures
            seen == self@.visited.contains(pos),
    {
        self.visited.contains(pos)
    }

    /// The coordinate from which `pos` was found, if it was found from one.
    pub fn parent(&self, pos: TilePos) -> (parent: Option<TilePos>)
        ensures
            parent == if self@.parents.contains_key(pos) {
                Some(self@.parents[pos])
            } else {
                None
            },
    {
        self.parents.get(pos)
    }

    /// Whether every start tile and every tile that waits in the frontier
    /// lies on `grid`, as [`Pathfinder::step`] asks.
    pub fn fits(&self, grid: &Grid) -> (fitting: bool)
        ensures
            fitting == self@.fits(grid@),
    {
        let mut index: usize = 0;
        while index < self.start_tiles.len()
            invariant
                index <= self.start_tiles@.len(),
                forall|i: int| 0 <= i < index ==> grid@.contains(#[trigger] self.start_tiles@[i]),
            decreases self.start_tiles@.len() - index,
        {
            if !grid.in_bounds(self.start_tiles.get(index)) {
                assert(!grid@.contains(self@.starts[index as int]));
                return false;
            }
            index += 1;
        }
        self.algorithm.lies_on(grid)
    }

    /// Starts the search afresh with a frontier of the strategy `algorithm`:
    /// nothing is seen, no step is counted, and the search is not complete.
    /// The starts and goals stay, and so does the grid.
    pub fn restart(&mut self, algorithm: AlgorithmOption)
        requires
            old(self).wf(),
        ensures
            final(self).wf(),
            final(self)@ == old(self)@.restarted(algorithm),
    {
        self.algorithm = Frontier::new(algorithm);
        self.visited.clear();
        self.parents.clear();
        self.depth = Ghost(Map::empty());
        self.step = 0;
        self.complete = false;
        proof {
            lemma_restarted_inv(old(self)@, algorithm);
        }
    }

    /// Restarts the search and marks it complete, so that no step does
    /// anything before the next restart.
    pub fn stop(&mut self, algorithm: AlgorithmOption)
        requires
            old(self).wf(),
        ensures
            final(self).wf(),
            final(self)@ == old(self)@.stopped(algorithm),
    {
        self.restart(algorithm);
        self.complete = true;
        proof {
            lemma_restarted_inv(old(self)@, algorithm);
        }
    }

    /// Forgets from where each coordinate was found.
    pub fn forget_parents(&mut self)
        requires
            old(self).wf(),
        ensures
            final(self).wf(),
            final(self)@ == old(self)@.unlinked(),
    {
        self.parents.clear();
        proof {
            lemma_unlinked_inv(old(self)@);
        }
    }

    /// Hears that the tile at `pos` is now in `state`. After it `pos` is
    /// held as a start exactly if `state` is `Start`, and as a goal exactly
    /// if `state` is `Goal`.
    pub fn notify(&mut self, pos: TilePos, state: TileState)
        requires
            old(self).wf(),
        ensures
            final(self).wf(),
            final(self)@ == old(self)@.notified(pos, state),
    {
        self.start_tiles.remove(pos);
        self.goal_tiles.remove(pos);
        match state {
            TileState::Start => {
                self.start_tiles.insert(pos);
            },
            TileState::Goal => {
                self.goal_tiles.insert(pos);
            },
            _ => {},
        }
        proof {
            lemma_notified_inv(old(self)@, pos, state);
        }
    }

    /// The first thing a step does: where nothing was seen yet, the start
    /// that `chosen` names is queued and seen.
    fn seed(&mut self, chosen: Option<usize>)
        requires
            old(self).wf(),
        ensures
            final(self).wf(),
            final(self)@ == old(self)@.seeded(as_chance(chosen)),
    {
        proof {
            lemma_seeded_keeps_inv(old(self)@, as_chance(chosen));
        }
        if !self.visited.is_empty() {
            return;
        }
        match chosen {
            Some(index) => {
                if index < self.start_tiles.len() {
                    let pos = self.start_tiles.get(index);
                    self.algorithm.insert(Tile::new(pos, &self.goal_tiles));
                    self.visited.insert(pos);
                    self.depth = Ghost(self.depth@.insert(pos, 0));
                }
            },
            None => {},
        }
    }

    /// Looks at the neighbour `to` of `from`.
    fn visit(&mut self, grid: &mut Grid, from: TilePos, to: TilePos)
        requires
            old(self).wf(),
            old(grid).wf(),
            old(self)@.visited.contains(from),
        ensures
            final(self).wf(),
            final(grid).wf(),
            (final(self)@, final(grid)@) == old(self)@.visit(old(grid)@, from, to),
    {
        proof {
            old(grid).lemma_view_wf();
            lemma_visit_inv(old(self)@, old(grid)@, from, to);
        }
        if self.visited.contains(to) {
            return;
        }
        self.visited.insert(to);
        self.depth = Ghost(self.depth@.insert(to, self.depth@[from] + 1));
        match grid.get(to) {
            None => {},
            Some(state) => {
                if state == TileState::Wall {
                    return;
                }
                self.parents.insert(to, from);
                let tile = Tile::new(to, &self.goal_tiles);
                self.algorithm.insert(tile);
                if state == TileState::Empty {
                    grid.set(to, TileState::Queued(tile.distance));
                }
            },
        }
    }

    /// Looks at the four neighbours of `from`.
    fn expand(&mut self, grid: &mut Grid, from: TilePos)
        requires
            old(self).wf(),
            old(grid).wf(),
            old(self)@.visited.contains(from),
        ensures
            final(self).wf(),
            final(grid).wf(),
            (final(self)@, final(grid)@) == old(self)@.expand(old(grid)@, from, 4),
    {
        let around = from.neighbors();
        let mut index: usize = 0;
        proof {
            old(grid).lemma_view_wf();
        }
        while index < 4
            invariant
                index <= 4,
                self.wf(),
                grid.wf(),
                old(self)@.inv(),
                old(grid)@.wf(),
                old(self)@.visited.contains(from),
                around@ == from.adjacent(),
                (self@, grid@) == old(self)@.expand(old(grid)@, from, index as nat),
            decreases 4 - index,
        {
            proof {
                lemma_expand_inv(old(self)@, old(grid)@, from, index as nat);
            }
            self.visit(grid, from, around[index]);
            index += 1;
        }
    }

    /// Marks the path that leads back from `from`: every visited tile on
    /// the chain of parent links becomes final.
    fn mark_path(&self, grid: &mut Grid, from: TilePos)
        requires
            self.wf(),
            old(grid).wf(),
        ensures
            final(grid).wf(),
            final(grid)@ == traced(old(grid)@, self@.parents, from),
    {
        let ghost start = grid@;
        let ghost parents = self@.parents;
        let ghost depth = self@.depth;
        let ghost mut hops: nat = 0;
        let mut current: Option<TilePos> = if grid.in_bounds(from) {
            Some(from)
        } else {
            None
        };
        proof {
            grid.lemma_view_wf();
        }
        while current.is_some()
            invariant
                self.wf(),
                grid.wf(),
                start.wf(),
                parents == self@.parents,
                depth == self@.depth,
                grid@.width == start.width,
                grid@.height == start.height,
                current == ancestor(parents, start, from, hops),
                forall|pos: TilePos|
                    start.contains(pos) ==> #[trigger] grid@.tiles[pos] == if reached(
                        parents,
                        start,
                        from,
                        hops,
                        pos,
                    ) {
                        finalised(start.tiles[pos])
                    } else {
                        start.tiles[pos]
                    },
            decreases
                    (match current {
                        Some(pos) => depth[pos] + 1,
                        None => 0,
                    }),
        {
            let pos = current.unwrap();
            let ghost before = grid@;
            match grid.get(pos) {
                Some(TileState::Visited(distance)) => {
                    grid.set(pos, TileState::Final(distance));
                },
                _ => {},
            }
            current =
            match self.parents.get(pos) {
                Some(parent) => if grid.in_bounds(parent) {
                    Some(parent)
                } else {
                    None
                },
                None => None,
            };
            proof {
                grid.lemma_view_wf();
                assert(ancestor(parents, start, from, hops) == Some(pos));
                assert(reached(parents, start, from, hops + 1, pos));
                assert(grid@.tiles[pos] == finalised(before.tiles[pos]));
                assert forall|other: TilePos| start.contains(other) implies #[trigger] grid@.tiles[other]
                    == if reached(parents, start, from, hops + 1, other) {
                    finalised(start.tiles[other])
                } else {
                    start.tiles[other]
                } by {
                    if other != pos {
                        assert(grid@.tiles[other] == before.tiles[other]);
                        if reached(parents, start, from, hops + 1, other) {
                            let k = choose|k: nat|
                                k < hops + 1 && ancestor(parents, start, from, k) == Some(other);
                            assert(k < hops);
                            assert(reached(parents, start, from, hops, other));
                        }
                        if reached(parents, start, from, hops, other) {
                            let k = choose|k: nat|
                                k < hops && ancestor(parents, start, from, k) == Some(other);
                            assert(k < hops + 1);
                            assert(reached(parents, start, from, hops + 1, other));
                        }
                    }
                }
                hops = hops + 1;
            }
        }
        proof {
            grid.lemma_view_wf();
            let marked = traced(start, parents, from);
            assert forall|pos: TilePos| start.contains(pos) implies #[trigger] grid@.tiles[pos]
                == marked.tiles[pos] by {
                if on_path(parents, start, from, pos) {
                    let k = choose|k: nat| ancestor(parents, start, from, k) == Some(pos);
                    if k >= hops {
                        lemma_chain_stays_ended(parents, start, from, hops, k);
                    }
                    assert(reached(parents, start, from, hops, pos));
                }
                if reached(parents, start, from, hops, pos) {
                    let k = choose|k: nat| k < hops && ancestor(parents, start, from, k) == Some(pos);
                    assert(on_path(parents, start, from, pos));
                }
            }
            assert(grid@.tiles =~= marked.tiles);
        }
    }

    /// Deals with what the frontier handed out.
    fn advance(&mut self, grid: &mut Grid, taken: Option<Tile>) -> (outcome: Outcome)
        requires
            old(self).wf(),
            old(grid).wf(),
            old(self)@.steps < usize::MAX,
            taken matches Some(tile) ==> old(self)@.visited.contains(tile.pos),
        ensures
            final(self).wf(),
            final(grid).wf(),
            (final(self)@, final(grid)@) == old(self)@.advanced(old(grid)@, taken),
            outcome == old(self)@.verdict(taken),
    {
        proof {
            old(grid).lemma_view_wf();
            lemma_advanced_inv(old(self)@, old(grid)@, taken);
        }
        match taken {
            None => {
                self.complete = true;
                self.step += 1;
                Outcome::Exhausted
            },
            Some(tile) => {
                if self.goal_tiles.contains(tile.pos) {
                    self.complete = true;
                    self.mark_path(grid, tile.pos);
                    self.step += 1;
                    Outcome::Found(tile.pos)
                } else {
                    proof {
                        lemma_expand_inv(old(self)@, old(grid)@, tile.pos, 4);
                    }
                    self.expand(grid, tile.pos);
                    settle(grid, tile.pos);
                    self.step += 1;
                    Outcome::Expanded(tile.pos)
                }
            },
        }
    }

    /// One step of the search, with `seed` and `chosen` in the place of
    /// what the random source would give for the choice of a start and for
    /// the choice of a tile of the frontier.
    ///
    /// A complete search does nothing. Any other queues a start if it has
    /// seen nothing yet, takes a tile out of its frontier and deals with it:
    /// with no tile it is complete; with a tile at a goal it is complete
    /// and marks the path back; with any other it looks at the four
    /// neighbours and settles the tile.
    pub fn step_with(&mut self, grid: &mut Grid, seed: Option<usize>, chosen: Option<usize>) -> (outcome:
        Outcome)
        requires
            old(self).wf(),
            old(grid).wf(),
            !old(self)@.complete ==> old(self)@.steps < usize::MAX && old(self)@.fits(old(grid)@),
        ensures
            final(self).wf(),
            final(grid).wf(),
            (final(self)@, final(grid)@) == old(self)@.step(
                old(grid)@,
                as_chance(seed),
                as_chance(chosen),
            ),
            outcome == old(self)@.outcome(as_chance(seed), as_chance(chosen)),
            final(self)@.fits(final(grid)@) || old(self)@.complete,
            old(self)@.complete ==> final(self)@ == old(self)@ && final(grid)@ == old(grid)@
                && outcome == Outcome::Idle,
    {
        if self.complete {
            return Outcome::Idle;
        }
        proof {
            old(grid).lemma_view_wf();
            lemma_step_inv(old(self)@, old(grid)@, as_chance(seed), as_chance(chosen));
            lemma_seeded_inv(old(self)@, old(grid)@, as_chance(seed));
            lemma_taken_inv(old(self)@.seeded(as_chance(seed)), old(grid)@, as_chance(chosen));
        }
        self.seed(seed);
        let taken = self.algorithm.next_with(chosen);
        self.advance(grid, taken)
    }

    /// One step of the search.
    ///
    /// It does what [`Pathfinder::step_with`] does, with a start and, where
    /// the strategy is the random one, a tile of the frontier that the
    /// random source picked: whatever was picked, the search and the grid
    /// are afterwards what [`SearchView::step`] makes of them for some fair
    /// pick.
    pub fn step(&mut self, grid: &mut Grid) -> (outcome: Outcome)
        requires
            old(self).wf(),
            old(grid).wf(),
            !old(self)@.complete ==> old(self)@.steps < usize::MAX && old(self)@.fits(old(grid)@),
        ensures
            final(self).wf(),
            final(grid).wf(),
            final(self)@.fits(final(grid)@) || old(self)@.complete,
            old(self)@.complete ==> final(self)@ == old(self)@ && final(grid)@ == old(grid)@
                && outcome == Outcome::Idle,
            exists|seed: Option<int>, chance: Option<int>|
                {
                    &&& fair(seed, old(self)@.starts.len())
                    &&& fair(chance, old(self)@.seeded(seed).frontier.len())
                    &&& (final(self)@, final(grid)@) == #[trigger] old(self)@.step(
                        old(grid)@,
                        seed,
                        chance,
                    )
                    &&& outcome == old(self)@.outcome(seed, chance)
                },
    {
        let ghost before = self@;
        let ghost any = if before.starts.len() == 0 {
            None
        } else {
            Some(0int)
        };
        if self.complete {
            proof {
                let chance = if before.seeded(any).frontier.len() == 0 {
                    None
                } else {
                    Some(0int)
                };
                assert((self@, grid@) == before.step(grid@, any, chance));
            }
            return Outcome::Idle;
        }
        let fresh = self.visited.is_empty();
        let chosen = if fresh {
            choose_index(self.start_tiles.len())
        } else {
            None
        };
        let ghost seed = if fresh {
            as_chance(chosen)
        } else {
            any
        };
        proof {
            old(grid).lemma_view_wf();
            assert(before.seeded(seed) == before.seeded(as_chance(chosen)));
            lemma_seeded_inv(before, old(grid)@, seed);
        }
        self.seed(chosen);
        let ghost seeded = self@;
        let taken = self.algorithm.next();
        let ghost chance = choose|chance: Option<int>|
            fair(chance, seeded.frontier.len()) && (taken, self@.frontier) == #[trigger] take_next(
                seeded.option,
                seeded.frontier,
                chance,
            );
        proof {
            lemma_taken_inv(seeded, old(grid)@, chance);
            lemma_step_inv(before, old(grid)@, seed, chance);
        }
        let outcome = self.advance(grid, taken);
        proof {
            assert((self@, grid@) == before.step(old(grid)@, seed, chance));
        }
        outcome
    }
}

impl Pathfinder {
    /// One step of the search, if the search is fit for it: a search that is
    /// not complete steps only if it lies on `grid` and its count of steps
    /// can grow, as [`Pathfinder::step`] asks. Where it is not fit, nothing
    /// is done and nothing returned.
    pub fn try_step(&mut self, grid: &mut Grid) -> (outcome: Option<Outcome>)
        requires
            old(self).wf(),
            old(grid).wf(),
        ensures
            final(self).wf(),
            final(grid).wf(),
            outcome is Some <==> old(self)@.complete || (old(self)@.steps < usize::MAX && old(
                self,
            )@.fits(old(grid)@)),
            outcome is None ==> final(self)@ == old(self)@ && final(grid)@ == old(grid)@,
            old(self)@.complete ==> final(self)@ == old(self)@ && final(grid)@ == old(grid)@
                && outcome == Some(Outcome::Idle),
            outcome matches Some(reached) ==> exists|seed: Option<int>, chance: Option<int>|
                {
                    &&& fair(seed, old(self)@.starts.len())
                    &&& fair(chance, old(self)@.seeded(seed).frontier.len())
                    &&& (final(self)@, final(grid)@) == #[trigger] old(self)@.step(
                        old(grid)@,
                        seed,
                        chance,
                    )
                    &&& reached == old(self)@.outcome(seed, chance)
                },
    {
        if self.complete || (self.step < usize::MAX && self.fits(grid)) {
            Some(self.step(grid))
        } else {
            None
        }
    }
}

impl Default for Pathfinder {
    fn default() -> (made: Pathfinder)
        ensures
            made.wf(),
            made@ == SearchView::initial(AlgorithmOption::BreadthFirst),
    {
        Pathfinder::new()
    }
}

/// The endpoint tracker: hears of every tile in `changes` that it is now in
/// the state given with it, one after the other.
pub fn update_endpoints(pathfinder: &mut Pathfinder, changes: &[(TilePos, TileState)])
    requires
        old(pathfinder).wf(),
    ensures
        final(pathfinder).wf(),
        final(pathfinder)@ == old(pathfinder)@.notified_all(changes@),
{
    let mut index: usize = 0;
    assert(changes@.take(0) =~= Seq::<(TilePos, TileState)>::empty());
    while index < changes.len()
        invariant
            index <= changes@.len(),
            pathfinder.wf(),
            pathfinder@ == old(pathfinder)@.notified_all(changes@.take(index as int)),
        decreases changes@.len() - index,
    {
        let (pos, state) = changes[index];
        pathfinder.notify(pos, state);
        proof {
            let more = changes@.take(index + 1);
            assert(more.drop_last() =~= changes@.take(index as int));
            assert(more.last() == changes@[index as int]);
        }
        index += 1;
    }
    assert(changes@.take(index as int) =~= changes@);
}

} // verus!
