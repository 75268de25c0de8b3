//! What holds of a search over any number of steps.
//!
//! A run is a search and a grid together with what the random source gave
//! for each step. The laws below speak of every run.

use vstd::prelude::*;
use crate::position::TilePos;
use crate::grid::{GridView, TileState};
use crate::algorithm::{next_index, take_next};
use crate::search::{ancestor, finalised, on_path, Outcome, SearchView};
use crate::preserved::{
    lemma_expand_inv, lemma_next_index_in_range, lemma_seeded_inv, lemma_step_inv,
    lemma_taken_inv,
};

verus! {

/// What the random source gave for one step: the choice of a start and the
/// choice of a tile of the frontier.
pub struct Draw {
    pub seed: Option<int>,
    pub chance: Option<int>,
}

/// The search and the grid after one step for each of `draws`.
pub open spec fn run(search: SearchView, grid: GridView, draws: Seq<Draw>) -> (SearchView, GridView)
    decreases draws.len(),
{
    if draws.len() == 0 {
        (search, grid)
    } else {
        let (before, painted) = run(search, grid, draws.drop_last());
        before.step(painted, draws.last().seed, draws.last().chance)
    }
}

/// The coordinate of the tile that the step with the number `index` takes
/// out of the frontier, if it takes one.
pub open spec fn taken_in(search: SearchView, grid: GridView, draws: Seq<Draw>, index: int) -> Option<
    TilePos,
> {
    let before = run(search, grid, draws.take(index)).0;
    match before.outcome(draws[index].seed, draws[index].chance) {
        Outcome::Expanded(pos) => Some(pos),
        Outcome::Found(pos) => Some(pos),
        _ => None,
    }
}

/// A tile in the state `after` is where a search may have brought a tile
/// that was in the state `before`, in one step: the same state, or the next
/// of empty, queued, visited, final, with the same distance.
pub open spec fn moved_on(before: TileState, after: TileState) -> bool {
    ||| after == before
    ||| before == TileState::Empty && after is Queued
    ||| before matches TileState::Queued(distance) && after == TileState::Visited(distance)
    ||| before matches TileState::Visited(distance) && after == TileState::Final(distance)
}

/// A tile in the state `after` is where a search may have brought a tile
/// that was in the state `before`, in any number of steps. A wall, a start
/// and a goal stay what they are; an empty tile stays empty or is on the
/// trail; a tile on the trail goes forward only and keeps its distance.
pub open spec fn never_back(before: TileState, after: TileState) -> bool {
    match before {
        TileState::Empty => after == TileState::Empty || after.is_trail(),
        TileState::Queued(distance) => after == TileState::Queued(distance) || after
            == TileState::Visited(distance) || after == TileState::Final(distance),
        TileState::Visited(distance) => after == TileState::Visited(distance) || after
            == TileState::Final(distance),
        other => after == other,
    }
}

/// The coordinate was seen and no tile at it waits in the frontier: the
/// search is done with it.
pub open spec fn done_with(search: SearchView, pos: TilePos) -> bool {
    search.visited.contains(pos) && !search.queued(pos)
}

/// A step past completion changes nothing: not the count of steps, not the
/// grid, not the parent links, nor anything else.
pub proof fn lemma_complete_stays(
    search: SearchView,
    grid: GridView,
    seed: Option<int>,
    chance: Option<int>,
)
    requires
        search.complete,
    ensures
        search.step(grid, seed, chance) == (search, grid),
        search.outcome(seed, chance) == Outcome::Idle,
{
}

/// Any number of steps past completion change nothing.
pub proof fn lemma_complete_stays_for_good(search: SearchView, grid: GridView, draws: Seq<Draw>)
    requires
        search.complete,
    ensures
        run(search, grid, draws) == (search, grid),
    decreases draws.len(),
{
    if draws.len() > 0 {
        lemma_complete_stays_for_good(search, grid, draws.drop_last());
    }
}

/// A run keeps the invariant and the fit, and leaves the grid its size.
pub proof fn lemma_run_inv(search: SearchView, grid: GridView, draws: Seq<Draw>)
    requires
        search.inv(),
        grid.wf(),
    ensures
        run(search, grid, draws).0.inv(),
        run(search, grid, draws).1.wf(),
        run(search, grid, draws).1.width == grid.width,
        run(search, grid, draws).1.height == grid.height,
        search.fits(grid) ==> run(search, grid, draws).0.fits(run(search, grid, draws).1),
    decreases draws.len(),
{
    if draws.len() > 0 {
        lemma_run_inv(search, grid, draws.drop_last());
        let (before, painted) = run(search, grid, draws.drop_last());
        lemma_step_inv(before, painted, draws.last().seed, draws.last().chance);
    }
}

/// Looking at a neighbour changes at most the tile of that neighbour, and
/// that only from empty to queued, and only if the neighbour was not seen
/// before.
pub proof fn lemma_visit_moves_on(
    search: SearchView,
    grid: GridView,
    from: TilePos,
    to: TilePos,
    pos: TilePos,
)
    requires
        grid.wf(),
        grid.contains(pos),
    ensures
        ({
            let marked = search.visit(grid, from, to).1;
            &&& marked.tiles[pos] == grid.tiles[pos] || (grid.tiles[pos] == TileState::Empty
                && marked.tiles[pos] is Queued)
            &&& search.visited.contains(pos) ==> marked.tiles[pos] == grid.tiles[pos]
        }),
{
}

/// Looking at the neighbours of a coordinate changes tiles only from empty
/// to queued, and none at a coordinate that was seen before.
pub proof fn lemma_expand_moves_on(
    search: SearchView,
    grid: GridView,
    from: TilePos,
    count: nat,
    pos: TilePos,
)
    requires
        search.inv(),
        grid.wf(),
        search.visited.contains(from),
        grid.contains(pos),
    ensures
        ({
            let marked = search.expand(grid, from, count).1;
            &&& marked.tiles[pos] == grid.tiles[pos] || (grid.tiles[pos] == TileState::Empty
                && marked.tiles[pos] is Queued)
            &&& search.visited.contains(pos) ==> marked.tiles[pos] == grid.tiles[pos]
        }),
    decreases count,
{
    if count == 0 || count > 4 {
    } else {
        lemma_expand_moves_on(search, grid, from, (count - 1) as nat, pos);
        lemma_expand_inv(search, grid, from, (count - 1) as nat);
        let (middle, painted) = search.expand(grid, from, (count - 1) as nat);
        lemma_visit_moves_on(middle, painted, from, from.adjacent()[count - 1], pos);
    }
}

/// A step never takes a tile back: every tile is after it what it was, or
/// one further along empty, queued, visited, final, with its distance kept.
/// Walls, starts and goals are left alone.
pub proof fn lemma_step_moves_on(
    search: SearchView,
    grid: GridView,
    seed: Option<int>,
    chance: Option<int>,
    pos: TilePos,
)
    requires
        search.inv(),
        grid.wf(),
        grid.contains(pos),
    ensures
        moved_on(grid.tiles[pos], search.step(grid, seed, chance).1.tiles[pos]),
        grid.tiles[pos].progress() <= search.step(grid, seed, chance).1.tiles[pos].progress(),
{
    if !search.complete {
        let seeded = search.seeded(seed);
        lemma_seeded_inv(search, grid, seed);
        lemma_taken_inv(seeded, grid, chance);
        let (taken, rest) = take_next(seeded.option, seeded.frontier, chance);
        let ready = SearchView { frontier: rest, ..seeded };
        match taken {
            None => {},
            Some(tile) => {
                if !ready.goals.contains(tile.pos) {
                    lemma_expand_moves_on(ready, grid, tile.pos, 4, pos);
                    lemma_expand_inv(ready, grid, tile.pos, 4);
                    if grid.contains(tile.pos) {
                        lemma_expand_moves_on(ready, grid, tile.pos, 4, tile.pos);
                    }
                }
            },
        }
    }
}

/// What never goes back over one stretch and over the next never goes back
/// over both.
pub proof fn lemma_never_back_chains(first: TileState, second: TileState, third: TileState)
    requires
        never_back(first, second),
        never_back(second, third),
    ensures
        never_back(first, third),
{
}

/// No tile ever goes back in a run: a final tile stays final, a visited one
/// stays visited or becomes final, a queued one is never empty again, and
/// each keeps its distance.
pub proof fn lemma_run_never_back(search: SearchView, grid: GridView, draws: Seq<Draw>, pos: TilePos)
    requires
        search.inv(),
        grid.wf(),
        grid.contains(pos),
    ensures
        never_back(grid.tiles[pos], run(search, grid, draws).1.tiles[pos]),
        grid.tiles[pos].progress() <= run(search, grid, draws).1.tiles[pos].progress(),
    decreases draws.len(),
{
    if draws.len() > 0 {
        lemma_run_never_back(search, grid, draws.drop_last(), pos);
        lemma_run_inv(search, grid, draws.drop_last());
        let (before, painted) = run(search, grid, draws.drop_last());
        lemma_step_moves_on(before, painted, draws.last().seed, draws.last().chance, pos);
        lemma_never_back_chains(
            grid.tiles[pos],
            painted.tiles[pos],
            run(search, grid, draws).1.tiles[pos],
        );
    }
}

/// Looking at a neighbour queues only a coordinate that was not seen
/// before, and leaves the search done with what it was done with.
pub proof fn lemma_visit_queues_unseen(
    search: SearchView,
    grid: GridView,
    from: TilePos,
    to: TilePos,
    pos: TilePos,
)
    requires
        search.inv(),
    ensures
        ({
            let after = search.visit(grid, from, to).0;
            &&& after.queued(pos) && !search.queued(pos) ==> !search.visited.contains(pos)
            &&& done_with(search, pos) ==> done_with(after, pos)
        }),
{
    let after = search.visit(grid, from, to).0;
    if after.queued(pos) && !search.queued(pos) {
        let i = choose|i: int| 0 <= i < after.frontier.len() && (#[trigger] after.frontier[i]).pos == pos;
        if i < search.frontier.len() {
            assert(search.frontier[i].pos == pos);
        }
    }
}

/// Looking at the neighbours of a coordinate queues only coordinates that
/// were not seen before, and leaves the search done with what it was done
/// with.
pub proof fn lemma_expand_queues_unseen(
    search: SearchView,
    grid: GridView,
    from: TilePos,
    count: nat,
    pos: TilePos,
)
    requires
        search.inv(),
        grid.wf(),
        search.visited.contains(from),
    ensures
        ({
            let after = search.expand(grid, from, count).0;
            &&& after.queued(pos) && !search.queued(pos) ==> !search.visited.contains(pos)
            &&& done_with(search, pos) ==> done_with(after, pos)
        }),
    decreases count,
{
    if count == 0 || count > 4 {
    } else {
        lemma_expand_queues_unseen(search, grid, from, (count - 1) as nat, pos);
        lemma_expand_inv(search, grid, from, (count - 1) as nat);
        let (middle, painted) = search.expand(grid, from, (count - 1) as nat);
        lemma_visit_queues_unseen(middle, painted, from, from.adjacent()[count - 1], pos);
    }
}

/// A step brings into the frontier only coordinates that were never seen
/// before: a coordinate that waits after the step and did not wait before
/// it was not among those seen.
pub proof fn lemma_step_queues_unseen(
    search: SearchView,
    grid: GridView,
    seed: Option<int>,
    chance: Option<int>,
    pos: TilePos,
)
    requires
        search.inv(),
        grid.wf(),
    ensures
        ({
            let after = search.step(grid, seed, chance).0;
            after.queued(pos) && !search.queued(pos) ==> !search.visited.contains(pos)
        }),
{
    if !search.complete {
        let seeded = search.seeded(seed);
        lemma_seeded_inv(search, grid, seed);
        lemma_taken_inv(seeded, grid, chance);
        lemma_next_index_in_range(seeded.option, seeded.frontier, chance);
        let (taken, rest) = take_next(seeded.option, seeded.frontier, chance);
        let ready = SearchView { frontier: rest, ..seeded };
        let after = search.step(grid, seed, chance).0;
        assert forall|at: TilePos| ready.queued(at) implies seeded.queued(at) by {
            let i = choose|i: int| 0 <= i < rest.len() && (#[trigger] rest[i]).pos == at;
            match next_index(seeded.option, seeded.frontier, chance) {
                Some(index) => {
                    assert(seeded.frontier[if i < index { i } else { i + 1 }].pos == at);
                },
                None => {},
            }
        }
        if seeded != search {
            assert(search.visited =~= Set::<TilePos>::empty());
        }
        match taken {
            None => {},
            Some(tile) => {
                if !ready.goals.contains(tile.pos) {
                    lemma_expand_queues_unseen(ready, grid, tile.pos, 4, pos);
                }
            },
        }
        if after.queued(pos) && !search.queued(pos) && search.visited.contains(pos) {
            assert(seeded == search);
            assert(!ready.queued(pos));
        }
    }
}

/// A step forgets nothing that was seen.
pub proof fn lemma_step_keeps_visited(
    search: SearchView,
    grid: GridView,
    seed: Option<int>,
    chance: Option<int>,
    pos: TilePos,
)
    requires
        search.inv(),
        grid.wf(),
        search.visited.contains(pos),
    ensures
        search.step(grid, seed, chance).0.visited.contains(pos),
{
    if !search.complete {
        let seeded = search.seeded(seed);
        lemma_seeded_inv(search, grid, seed);
        lemma_taken_inv(seeded, grid, chance);
        let (taken, rest) = take_next(seeded.option, seeded.frontier, chance);
        let ready = SearchView { frontier: rest, ..seeded };
        match taken {
            None => {},
            Some(tile) => {
                if !ready.goals.contains(tile.pos) {
                    lemma_expand_inv(ready, grid, tile.pos, 4);
                }
            },
        }
    }
}

/// Once the search is done with a coordinate, it stays done with it: a step
/// does not queue it again.
pub proof fn lemma_step_keeps_done(
    search: SearchView,
    grid: GridView,
    seed: Option<int>,
    chance: Option<int>,
    pos: TilePos,
)
    requires
        search.inv(),
        grid.wf(),
        done_with(search, pos),
    ensures
        done_with(search.step(grid, seed, chance).0, pos),
{
    lemma_step_queues_unseen(search, grid, seed, chance, pos);
    if !search.complete {
        let seeded = search.seeded(seed);
        assert(seeded == search);
        lemma_taken_inv(seeded, grid, chance);
        let (taken, rest) = take_next(seeded.option, seeded.frontier, chance);
        let ready = SearchView { frontier: rest, ..seeded };
        match taken {
            None => {},
            Some(tile) => {
                if !ready.goals.contains(tile.pos) {
                    lemma_expand_inv(ready, grid, tile.pos, 4);
                }
            },
        }
    }
}

/// The search is done with the coordinate of the tile that a step takes.
pub proof fn lemma_step_done_with_taken(
    search: SearchView,
    grid: GridView,
    seed: Option<int>,
    chance: Option<int>,
)
    requires
        search.inv(),
        grid.wf(),
        !search.complete,
    ensures
        search.taken(seed, chance) matches Some(tile) ==> {
            &&& search.seeded(seed).queued(tile.pos)
            &&& done_with(search.step(grid, seed, chance).0, tile.pos)
        },
{
    let seeded = search.seeded(seed);
    lemma_seeded_inv(search, grid, seed);
    lemma_taken_inv(seeded, grid, chance);
    let (taken, rest) = take_next(seeded.option, seeded.frontier, chance);
    let ready = SearchView { frontier: rest, ..seeded };
    match taken {
        None => {},
        Some(tile) => {
            if !ready.goals.contains(tile.pos) {
                lemma_expand_queues_unseen(ready, grid, tile.pos, 4, tile.pos);
                lemma_expand_inv(ready, grid, tile.pos, 4);
            }
        },
    }
}

/// No coordinate is taken out of the frontier twice in a run.
pub proof fn lemma_taken_once(
    search: SearchView,
    grid: GridView,
    draws: Seq<Draw>,
    first: int,
    second: int,
)
    requires
        search.inv(),
        grid.wf(),
        0 <= first < second < draws.len(),
        taken_in(search, grid, draws, first) is Some,
    ensures
        taken_in(search, grid, draws, second) != taken_in(search, grid, draws, first),
        done_with(
            run(search, grid, draws.take(second)).0,
            taken_in(search, grid, draws, first)->0,
        ),
    decreases second,
{
    let pos = taken_in(search, grid, draws, first)->0;
    let upto = draws.take(second);
    assert(upto.drop_last() =~= draws.take(second - 1));
    assert(upto.last() == draws[second - 1]);
    lemma_run_inv(search, grid, draws.take(second - 1));
    lemma_run_inv(search, grid, upto);
    let (before, painted) = run(search, grid, draws.take(second - 1));
    if first == second - 1 {
        lemma_step_done_with_taken(before, painted, draws[first].seed, draws[first].chance);
    } else {
        lemma_taken_once(search, grid, draws, first, second - 1);
        lemma_step_keeps_done(before, painted, draws[second - 1].seed, draws[second - 1].chance, pos);
    }
    let now = run(search, grid, upto).0;
    assert(done_with(now, pos));
    if !now.complete {
        assert(now.seeded(draws[second].seed) == now);
        lemma_step_done_with_taken(
            now,
            run(search, grid, upto).1,
            draws[second].seed,
            draws[second].chance,
        );
    }
}

/// Along the chain of parent links every coordinate was seen earlier than
/// the one before it: the depth goes down by at least one with each link.
pub proof fn lemma_chain_descends(
    search: SearchView,
    grid: GridView,
    from: TilePos,
    near: nat,
    far: nat,
)
    requires
        search.inv(),
        near <= far,
        ancestor(search.parents, grid, from, far) is Some,
    ensures
        ancestor(search.parents, grid, from, near) is Some,
        search.depth[ancestor(search.parents, grid, from, far)->0] + (far - near)
            <= search.depth[ancestor(search.parents, grid, from, near)->0],
    decreases far,
{
    if near < far {
        lemma_chain_descends(search, grid, from, near, (far - 1) as nat);
        let pos = ancestor(search.parents, grid, from, (far - 1) as nat)->0;
        assert(search.parents.contains_key(pos));
    }
}

/// The walk back along the parent links comes to an end: it has no more
/// links than the depth of the coordinate where it starts.
pub proof fn lemma_path_ends(search: SearchView, grid: GridView, from: TilePos)
    requires
        search.inv(),
    ensures
        ancestor(search.parents, grid, from, search.depth[from] + 1) is None,
{
    let far = search.depth[from] + 1;
    if ancestor(search.parents, grid, from, far) is Some {
        lemma_chain_descends(search, grid, from, 0, far);
    }
}

/// The walk back along the parent links never comes to a coordinate twice.
pub proof fn lemma_path_has_no_cycle(
    search: SearchView,
    grid: GridView,
    from: TilePos,
    near: nat,
    far: nat,
)
    requires
        search.inv(),
        near < far,
        ancestor(search.parents, grid, from, far) is Some,
    ensures
        ancestor(search.parents, grid, from, near) is Some,
        ancestor(search.parents, grid, from, near) != ancestor(search.parents, grid, from, far),
{
    lemma_chain_descends(search, grid, from, near, far);
}

/// A step that finds a goal marks the path back from it and nothing else:
/// every tile on the chain of parent links that was visited is final with
/// the same distance, and every other tile is what it was. The search is
/// complete, and its parent links are what they were.
pub proof fn lemma_found_marks_path(
    search: SearchView,
    grid: GridView,
    seed: Option<int>,
    chance: Option<int>,
    pos: TilePos,
)
    requires
        search.inv(),
        grid.wf(),
        search.outcome(seed, chance) is Found,
        grid.contains(pos),
    ensures
        ({
            let goal = search.outcome(seed, chance)->Found_0;
            let (after, marked) = search.step(grid, seed, chance);
            &&& after.complete
            &&& after.parents == search.parents
            &&& search.goals.contains(goal)
            &&& marked.tiles[pos] == if on_path(search.parents, grid, goal, pos) {
                finalised(grid.tiles[pos])
            } else {
                grid.tiles[pos]
            }
        }),
{
}

} // verus!
