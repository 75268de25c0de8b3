//! The trail that a search leaves on a grid which nobody else paints
//! meanwhile: what was empty and is found is queued, then visited, and the
//! tiles between the start and the goal that was found are final.

use vstd::prelude::*;
use crate::position::TilePos;
use crate::grid::{GridView, TileState};
use crate::algorithm::{next_index, take_next};
use crate::search::{ancestor, settled, SearchView};
use crate::preserved::{
    lemma_expand_inv, lemma_next_index_in_range, lemma_same_frontier, lemma_seeded_inv,
    lemma_taken_inv, lemma_visit_inv,
};
use crate::laws::{lemma_expand_moves_on, lemma_run_inv, run, Draw};

verus! {

/// What holds of a search and the grid that it has painted, seen against
/// the grid `canvas` as it was when the search started afresh.
///
/// A tile at a coordinate that was not seen is as it was. A tile that was
/// empty and was found from another is queued while it waits in the
/// frontier and visited when it waits no more; the one at `taken`, whose
/// neighbours the search is looking at, is not yet held to the latter. No
/// tile from which another was found waits in the frontier.
pub open spec fn trailing(
    canvas: GridView,
    search: SearchView,
    grid: GridView,
    taken: Option<TilePos>,
) -> bool {
    &&& search.inv()
    &&& canvas.wf()
    &&& grid.wf()
    &&& grid.width == canvas.width
    &&& grid.height == canvas.height
    &&& forall|pos: TilePos|
        grid.contains(pos) && !search.visited.contains(pos) ==> #[trigger] grid.tiles[pos]
            == canvas.tiles[pos]
    &&& forall|pos: TilePos|
        grid.contains(pos) && search.parents.contains_key(pos) && canvas.tiles[pos]
            == TileState::Empty ==> if search.queued(pos) || taken == Some(pos) {
            #[trigger] grid.tiles[pos] is Queued
        } else {
            grid.tiles[pos] is Visited
        }
    &&& forall|pos: TilePos| #[trigger]
        search.parents.contains_key(pos) ==> !search.queued(search.parents[pos])
}

/// A look at a neighbour keeps the trail.
pub proof fn lemma_visit_trailing(
    canvas: GridView,
    search: SearchView,
    grid: GridView,
    from: TilePos,
    to: TilePos,
)
    requires
        trailing(canvas, search, grid, Some(from)),
        search.visited.contains(from),
        !search.queued(from),
    ensures
        ({
            let (after, marked) = search.visit(grid, from, to);
            &&& trailing(canvas, after, marked, Some(from))
            &&& !after.queued(from)
        }),
{
    let (after, marked) = search.visit(grid, from, to);
    lemma_visit_inv(search, grid, from, to);
    if !search.visited.contains(to) {
        assert forall|i: int| 0 <= i < search.frontier.len() implies (
        #[trigger] search.frontier[i]).pos != to by {
            assert(search.visited.contains(search.frontier[i].pos));
        }
        assert forall|pos: TilePos| pos != to implies after.queued(pos) == search.queued(pos) by {
            if after.queued(pos) {
                let i = choose|i: int|
                    0 <= i < after.frontier.len() && (#[trigger] after.frontier[i]).pos == pos;
                assert(search.frontier[i].pos == pos);
            }
            if search.queued(pos) {
                let i = choose|i: int|
                    0 <= i < search.frontier.len() && (#[trigger] search.frontier[i]).pos == pos;
                assert(after.frontier[i].pos == pos);
            }
        }
        if grid.contains(to) && grid.tiles[to] != TileState::Wall {
            assert(after.frontier[search.frontier.len() as int].pos == to);
            assert(after.queued(to));
        }
        assert forall|pos: TilePos| #[trigger] after.parents.contains_key(pos) implies !after.queued(
            after.parents[pos],
        ) by {
            if pos != to {
                assert(search.parents.contains_key(pos));
                assert(search.visited.contains(search.parents[pos]));
            }
        }
        assert forall|pos: TilePos|
            marked.contains(pos) && after.parents.contains_key(pos) && canvas.tiles[pos]
                == TileState::Empty implies if after.queued(pos) || Some(from) == Some(pos) {
            #[trigger] marked.tiles[pos] is Queued
        } else {
            marked.tiles[pos] is Visited
        } by {
            if pos != to {
                assert(search.parents.contains_key(pos));
                assert(grid.contains(pos));
            }
        }
    }
}

/// Looks at the neighbours of a tile keep the trail.
pub proof fn lemma_expand_trailing(
    canvas: GridView,
    search: SearchView,
    grid: GridView,
    from: TilePos,
    count: nat,
)
    requires
        trailing(canvas, search, grid, Some(from)),
        search.visited.contains(from),
        !search.queued(from),
    ensures
        ({
            let (after, marked) = search.expand(grid, from, count);
            &&& trailing(canvas, after, marked, Some(from))
            &&& !after.queued(from)
        }),
    decreases count,
{
    if count == 0 || count > 4 {
    } else {
        lemma_expand_trailing(canvas, search, grid, from, (count - 1) as nat);
        lemma_expand_inv(search, grid, from, (count - 1) as nat);
        let (middle, painted) = search.expand(grid, from, (count - 1) as nat);
        lemma_visit_trailing(canvas, middle, painted, from, from.adjacent()[count - 1]);
    }
}

/// A step that does not complete the search keeps the trail.
pub proof fn lemma_step_trailing(
    canvas: GridView,
    search: SearchView,
    grid: GridView,
    seed: Option<int>,
    chance: Option<int>,
)
    requires
        trailing(canvas, search, grid, None),
    ensures
        ({
            let (after, marked) = search.step(grid, seed, chance);
            after.complete || trailing(canvas, after, marked, None)
        }),
{
    if !search.complete {
        let seeded = search.seeded(seed);
        lemma_seeded_inv(search, grid, seed);
        lemma_taken_inv(seeded, grid, chance);
        lemma_next_index_in_range(seeded.option, seeded.frontier, chance);
        let (taken, rest) = take_next(seeded.option, seeded.frontier, chance);
        let ready = SearchView { frontier: rest, ..seeded };
        if seeded != search {
            assert(search.visited =~= Set::<TilePos>::empty());
            assert forall|pos: TilePos| #[trigger] search.parents.contains_key(pos) implies false by {
                assert(search.visited.contains(pos));
            }
        }
        match taken {
            None => {},
            Some(tile) => {
                let from = tile.pos;
                if !ready.goals.contains(from) {
                    let index = next_index(seeded.option, seeded.frontier, chance)->0;
                    assert forall|pos: TilePos| ready.queued(pos) implies seeded.queued(pos) by {
                        let i = choose|i: int| 0 <= i < rest.len() && (#[trigger] rest[i]).pos == pos;
                        assert(seeded.frontier[if i < index { i } else { i + 1 }].pos == pos);
                    }
                    assert forall|pos: TilePos|
                        seeded.queued(pos) && pos != from implies ready.queued(pos) by {
                        let i = choose|i: int|
                            0 <= i < seeded.frontier.len() && (#[trigger] seeded.frontier[i]).pos
                                == pos;
                        assert(i != index);
                        assert(rest[if i < index { i } else { i - 1 }].pos == pos);
                    }
                    assert forall|pos: TilePos| search.queued(pos) implies seeded.queued(pos) by {
                        let i = choose|i: int|
                            0 <= i < search.frontier.len() && (#[trigger] search.frontier[i]).pos
                                == pos;
                        assert(seeded.frontier[i].pos == pos);
                    }
                    assert forall|pos: TilePos|
                        seeded.queued(pos) && search.parents.contains_key(
                            pos,
                        ) implies search.queued(pos) by {
                        if seeded != search {
                            assert(search.visited.contains(pos));
                        }
                    }
                    assert(trailing(canvas, ready, grid, Some(from)));
                    lemma_expand_trailing(canvas, ready, grid, from, 4);
                    lemma_expand_inv(ready, grid, from, 4);
                    let (grown, painted) = ready.expand(grid, from, 4);
                    let after = SearchView { steps: grown.steps + 1, ..grown };
                    let marked = settled(painted, from);
                    assert((after, marked) == search.step(grid, seed, chance));
                    lemma_same_frontier(after, grown);
                    if grid.contains(from) {
                        lemma_expand_moves_on(ready, grid, from, 4, from);
                    }
                    assert forall|pos: TilePos|
                        marked.contains(pos) && after.parents.contains_key(pos)
                            && canvas.tiles[pos] == TileState::Empty implies if after.queued(pos)
                        || None::<TilePos> == Some(pos) {
                        #[trigger] marked.tiles[pos] is Queued
                    } else {
                        marked.tiles[pos] is Visited
                    } by {
                        assert(painted.contains(pos));
                        assert(grown.parents.contains_key(pos));
                    }
                    assert forall|pos: TilePos|
                        marked.contains(pos) && !after.visited.contains(
                            pos,
                        ) implies #[trigger] marked.tiles[pos] == canvas.tiles[pos] by {
                        assert(painted.contains(pos));
                    }
                }
            },
        }
    }
}

/// A run from a fresh start keeps the trail until it completes the search.
pub proof fn lemma_run_trailing(search: SearchView, grid: GridView, draws: Seq<Draw>)
    requires
        search == search.restarted(search.option),
        search.inv(),
        grid.wf(),
    ensures
        ({
            let (after, marked) = run(search, grid, draws);
            after.complete || trailing(grid, after, marked, None)
        }),
    decreases draws.len(),
{
    if draws.len() > 0 {
        lemma_run_trailing(search, grid, draws.drop_last());
        let (before, painted) = run(search, grid, draws.drop_last());
        if !before.complete {
            lemma_step_trailing(grid, before, painted, draws.last().seed, draws.last().chance);
        }
    }
}

/// Where a search that started afresh finds a goal, and nobody else has
/// painted the grid meanwhile, every tile between the two ends of the path
/// that was empty when the search started is final afterwards: every
/// coordinate on the chain of parent links from the goal, but the goal
/// itself and the one at which the chain ends.
pub proof fn lemma_path_is_final(
    search: SearchView,
    grid: GridView,
    draws: Seq<Draw>,
    index: int,
    hops: nat,
)
    requires
        search == search.restarted(search.option),
        search.inv(),
        grid.wf(),
        0 <= index < draws.len(),
        run(search, grid, draws.take(index)).0.outcome(draws[index].seed, draws[index].chance)
            is Found,
        hops >= 1,
        ({
            let (before, painted) = run(search, grid, draws.take(index));
            let goal = before.outcome(draws[index].seed, draws[index].chance)->Found_0;
            &&& ancestor(before.parents, painted, goal, hops) matches Some(pos)
            &&& before.parents.contains_key(pos)
            &&& grid.tiles[pos] == TileState::Empty
        }),
    ensures
        ({
            let (before, painted) = run(search, grid, draws.take(index));
            let goal = before.outcome(draws[index].seed, draws[index].chance)->Found_0;
            let pos = ancestor(before.parents, painted, goal, hops)->0;
            run(search, grid, draws.take(index + 1)).1.tiles[pos] is Final
        }),
{
    let upto = draws.take(index);
    let (before, painted) = run(search, grid, upto);
    let goal = before.outcome(draws[index].seed, draws[index].chance)->Found_0;
    let pos = ancestor(before.parents, painted, goal, hops)->0;
    assert(draws.take(index + 1).drop_last() =~= upto);
    assert(draws.take(index + 1).last() == draws[index]);
    lemma_run_trailing(search, grid, upto);
    lemma_run_inv(search, grid, upto);
    let seeded = before.seeded(draws[index].seed);
    assert(seeded == before) by {
        if seeded != before {
            assert(before.visited =~= Set::<TilePos>::empty());
            assert(before.visited.contains(pos));
        }
    }
    // The coordinate is the parent of the one before it on the chain.
    let child = ancestor(before.parents, painted, goal, (hops - 1) as nat)->0;
    assert(before.parents.contains_key(child));
    assert(pos == before.parents[child]);
    assert(!before.queued(pos));
    assert(painted.contains(pos));
    assert(painted.tiles[pos] is Visited);
}

} // verus!
