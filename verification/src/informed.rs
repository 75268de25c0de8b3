//! On a grid without walls and with one goal, the search that takes the
//! nearest tile finds the goal in no more steps than the breadth-first
//! search.

use vstd::prelude::*;
use crate::position::TilePos;
use crate::tile::Tile;
use crate::distance::manhattan;
use crate::grid::{GridView, TileState};
use crate::algorithm::{next_index, take_next, AlgorithmOption};
use crate::search::{Outcome, SearchView};
use crate::preserved::{
    lemma_expand_inv, lemma_next_index_in_range, lemma_same_frontier, lemma_seeded_inv,
    lemma_taken_inv, lemma_visit_inv,
};
use crate::laws::{
    done_with, lemma_expand_moves_on, lemma_run_inv, lemma_run_never_back, lemma_taken_once, run,
    taken_in, Draw,
};
use crate::breadth::{lemma_run_level_order, lemma_run_stays_complete, lemma_step_level_order};
use crate::homing::{homing, in_box, lemma_one_goal, lemma_step_homing};

verus! {

/// A function that sends the numbers below `count` to different numbers
/// below `room` shows that `count` is no more than `room`.
pub proof fn lemma_pigeonhole(places: spec_fn(int) -> int, count: int, room: int)
    requires
        0 <= room,
        forall|i: int| 0 <= i < count ==> 0 <= #[trigger] places(i) < room,
        forall|i: int, j: int|
            0 <= i < count && 0 <= j < count && i != j ==> #[trigger] places(i) != #[trigger] places(
                j,
            ),
    ensures
        count <= room,
    decreases room,
{
    if count > 0 {
        if room == 0 {
            assert(0 <= places(0) < room);
        } else if exists|i: int| 0 <= i < count && #[trigger] places(i) == room - 1 {
            let taken = choose|i: int| 0 <= i < count && #[trigger] places(i) == room - 1;
            let rest = |i: int|
                if i < taken {
                    places(i)
                } else {
                    places(i + 1)
                };
            assert forall|i: int| 0 <= i < count - 1 implies 0 <= #[trigger] rest(i) < room - 1 by {
                let before = if i < taken { i } else { i + 1 };
                assert(0 <= places(before) < room);
                assert(places(before) != places(taken));
            }
            assert forall|i: int, j: int|
                0 <= i < count - 1 && 0 <= j < count - 1 && i != j implies #[trigger] rest(i)
                != #[trigger] rest(j) by {
                let bi = if i < taken { i } else { i + 1 };
                let bj = if j < taken { j } else { j + 1 };
                assert(places(bi) != places(bj));
            }
            lemma_pigeonhole(rest, count - 1, room - 1);
        } else {
            assert forall|i: int| 0 <= i < count implies 0 <= #[trigger] places(i) < room - 1 by {
                assert(0 <= places(i) < room);
            }
            lemma_pigeonhole(places, count, room - 1);
        }
    }
}

/// A coordinate in the rectangle of `origin` and `goal`, other than the
/// goal, is fewer steps from the origin than the goal is.
pub proof fn lemma_box_is_nearer(origin: TilePos, goal: TilePos, pos: TilePos)
    requires
        in_box(origin, goal, pos),
        pos != goal,
    ensures
        manhattan(origin, pos) < manhattan(origin, goal),
{
}

/// A run leaves a grid without walls without walls.
pub proof fn lemma_run_stays_open(search: SearchView, grid: GridView, draws: Seq<Draw>)
    requires
        search.inv(),
        grid.wf(),
        grid.open(),
    ensures
        run(search, grid, draws).1.open(),
{
    lemma_run_inv(search, grid, draws);
    let marked = run(search, grid, draws).1;
    assert forall|pos: TilePos| marked.contains(pos) implies #[trigger] marked.tiles[pos]
        != TileState::Wall by {
        assert(grid.contains(pos));
        lemma_run_never_back(search, grid, draws, pos);
    }
}

/// On a grid without walls, a neighbour on the grid that is seen for the
/// first time is queued.
pub proof fn lemma_visit_queues_new(
    search: SearchView,
    grid: GridView,
    from: TilePos,
    to: TilePos,
    pos: TilePos,
)
    requires
        search.inv(),
        grid.wf(),
        grid.open(),
        search.visited.contains(from),
        grid.contains(pos),
        !search.visited.contains(pos),
        search.visit(grid, from, to).0.visited.contains(pos),
    ensures
        search.visit(grid, from, to).0.queued(pos),
        search.visit(grid, from, to).1.open(),
{
    let (after, marked) = search.visit(grid, from, to);
    assert(pos == to);
    assert(after.frontier[search.frontier.len() as int].pos == to);
    assert forall|at: TilePos| marked.contains(at) implies #[trigger] marked.tiles[at]
        != TileState::Wall by {
        assert(grid.contains(at));
    }
}

/// On a grid without walls, every coordinate on the grid that is seen for
/// the first time while the neighbours of a tile are looked at is queued.
pub proof fn lemma_expand_queues_new(
    search: SearchView,
    grid: GridView,
    from: TilePos,
    count: nat,
    pos: TilePos,
)
    requires
        search.inv(),
        grid.wf(),
        grid.open(),
        search.visited.contains(from),
        grid.contains(pos),
        !search.visited.contains(pos),
        search.expand(grid, from, count).0.visited.contains(pos),
    ensures
        search.expand(grid, from, count).0.queued(pos),
    decreases count,
{
    if count == 0 || count > 4 {
    } else {
        lemma_expand_inv(search, grid, from, (count - 1) as nat);
        let (middle, painted) = search.expand(grid, from, (count - 1) as nat);
        let to = from.adjacent()[count - 1];
        lemma_visit_inv(middle, painted, from, to);
        assert forall|at: TilePos| painted.contains(at) implies #[trigger] painted.tiles[at]
            != TileState::Wall by {
            assert(grid.contains(at));
            lemma_expand_moves_on(search, grid, from, (count - 1) as nat, at);
        }
        if middle.visited.contains(pos) {
            lemma_expand_queues_new(search, grid, from, (count - 1) as nat, pos);
        } else {
            lemma_visit_queues_new(middle, painted, from, to, pos);
        }
    }
}

/// On a grid without walls, a search is done with a coordinate on the grid
/// only by taking the tile there: if it is done with it after a step and
/// was not before, the step took it.
pub proof fn lemma_step_done_by_taking(
    search: SearchView,
    grid: GridView,
    seed: Option<int>,
    chance: Option<int>,
    pos: TilePos,
)
    requires
        search.inv(),
        grid.wf(),
        grid.open(),
        grid.contains(pos),
        !done_with(search, pos),
        done_with(search.step(grid, seed, chance).0, pos),
    ensures
        !search.complete,
        search.taken(seed, chance) matches Some(tile) && tile.pos == pos,
{
    let seeded = search.seeded(seed);
    lemma_seeded_inv(search, grid, seed);
    lemma_taken_inv(seeded, grid, chance);
    lemma_next_index_in_range(seeded.option, seeded.frontier, chance);
    let (taken, rest) = take_next(seeded.option, seeded.frontier, chance);
    let ready = SearchView { frontier: rest, ..seeded };
    let after = search.step(grid, seed, chance).0;
    let index = next_index(seeded.option, seeded.frontier, chance);
    // A coordinate that waits and is not taken still waits.
    assert forall|at: TilePos|
        seeded.queued(at) && !(taken matches Some(tile) && tile.pos == at) implies ready.queued(
        at,
    ) by {
        let i = choose|i: int| 0 <= i < seeded.frontier.len() && (#[trigger] seeded.frontier[i]).pos == at;
        match index {
            Some(k) => {
                assert(i != k);
                assert(rest[if i < k { i } else { i - 1 }].pos == at);
            },
            None => {},
        }
    }
    if seeded != search {
        let start = search.starts[seed->0];
        assert(search.visited =~= Set::<TilePos>::empty());
        assert(seeded.frontier[search.frontier.len() as int].pos == start);
        assert(seeded.queued(start));
    }
    if search.queued(pos) {
        let i = choose|i: int| 0 <= i < search.frontier.len() && (#[trigger] search.frontier[i]).pos == pos;
        assert(seeded.frontier[i].pos == pos);
    }
    if !search.complete {
        match taken {
            None => {
                lemma_same_frontier(after, ready);
            },
            Some(tile) => {
                if !ready.goals.contains(tile.pos) {
                    lemma_expand_inv(ready, grid, tile.pos, 4);
                    lemma_same_frontier(after, ready.expand(grid, tile.pos, 4).0);
                    if !ready.visited.contains(pos) {
                        lemma_expand_queues_new(ready, grid, tile.pos, 4, pos);
                    }
                } else {
                    lemma_same_frontier(after, ready);
                }
            },
        }
    }
}

/// On a grid without walls, every coordinate on the grid that a search is
/// done with after a run from a fresh start was taken in one of its steps.
pub proof fn lemma_done_was_taken(
    search: SearchView,
    grid: GridView,
    draws: Seq<Draw>,
    pos: TilePos,
) -> (index: int)
    requires
        search == search.restarted(search.option),
        search.inv(),
        grid.wf(),
        grid.open(),
        grid.contains(pos),
        done_with(run(search, grid, draws).0, pos),
    ensures
        0 <= index < draws.len(),
        taken_in(search, grid, draws, index) == Some(pos),
    decreases draws.len(),
{
    if draws.len() == 0 {
        assert(search.visited.contains(pos));
        0
    } else {
        let prefix = draws.drop_last();
        let (before, painted) = run(search, grid, prefix);
        lemma_run_inv(search, grid, prefix);
        lemma_run_stays_open(search, grid, prefix);
        if done_with(before, pos) {
            let index = lemma_done_was_taken(search, grid, prefix, pos);
            assert(prefix.take(index) =~= draws.take(index));
            assert(prefix[index] == draws[index]);
            index
        } else {
            lemma_step_done_by_taking(before, painted, draws.last().seed, draws.last().chance, pos);
            let index = draws.len() - 1;
            assert(draws.take(index) =~= prefix);
            index
        }
    }
}

/// After the first step of a run, a search that takes the nearest tile and
/// started afresh on a grid without walls, with one goal, is complete or
/// keeps what [`homing`] says of it, the start that it was seeded with and
/// the goal.
pub proof fn lemma_run_homing(search: SearchView, grid: GridView, draws: Seq<Draw>, goal: TilePos)
    requires
        search == search.restarted(AlgorithmOption::AStar),
        search.inv(),
        search.goals == seq![goal],
        grid.wf(),
        grid.open(),
        search.fits(grid),
        grid.contains(goal),
        draws.len() >= 1,
        taken_in(search, grid, draws, 0) is Some,
    ensures
        ({
            let origin = taken_in(search, grid, draws, 0)->0;
            let (after, marked) = run(search, grid, draws);
            &&& grid.contains(origin)
            &&& after.complete || homing(after, marked, origin, goal)
        }),
    decreases draws.len(),
{
    let origin = taken_in(search, grid, draws, 0)->0;
    assert(draws.take(0) =~= Seq::<Draw>::empty());
    let seed = draws[0].seed;
    let chance = draws[0].chance;
    let seeded = search.seeded(seed);
    lemma_seeded_inv(search, grid, seed);
    lemma_next_index_in_range(seeded.option, seeded.frontier, chance);
    assert(seeded.frontier.len() > 0);
    assert(seeded.frontier =~= seq![Tile::at(origin, search.goals)]);
    assert(seeded.frontier[0].pos == origin);
    assert(grid.contains(seeded.frontier[0].pos));
    if draws.len() == 1 {
        assert(draws.drop_last() =~= Seq::<Draw>::empty());
        assert(draws.last() == draws[0]);
        assert(seeded.seeded(seed) == seeded);
        assert(search.step(grid, seed, chance) == seeded.step(grid, seed, chance));
        assert(seeded.visited =~= set![origin]);
        lemma_one_goal(origin, goal);
        assert forall|pos: TilePos| seeded.visited.contains(pos) implies seeded.queued(pos) by {
            assert(pos == origin);
        }
        assert(homing(seeded, grid, origin, goal));
        lemma_step_homing(seeded, grid, origin, goal, seed, chance);
    } else {
        let prefix = draws.drop_last();
        assert(prefix.take(0) =~= Seq::<Draw>::empty());
        assert(prefix[0] == draws[0]);
        lemma_run_homing(search, grid, prefix, goal);
        let (before, painted) = run(search, grid, prefix);
        if !before.complete {
            lemma_step_homing(before, painted, origin, goal, draws.last().seed, draws.last().chance);
        }
    }
}

/// Every tile that such a search takes lies on the grid and in the
/// rectangle of the start that it was seeded with and the goal.
pub proof fn lemma_taken_in_box(
    search: SearchView,
    grid: GridView,
    draws: Seq<Draw>,
    goal: TilePos,
    index: int,
)
    requires
        search == search.restarted(AlgorithmOption::AStar),
        search.inv(),
        search.goals == seq![goal],
        grid.wf(),
        grid.open(),
        search.fits(grid),
        grid.contains(goal),
        0 <= index < draws.len(),
        taken_in(search, grid, draws, 0) is Some,
        taken_in(search, grid, draws, index) is Some,
    ensures
        grid.contains(taken_in(search, grid, draws, index)->0),
        in_box(taken_in(search, grid, draws, 0)->0, goal, taken_in(search, grid, draws, index)->0),
{
    let origin = taken_in(search, grid, draws, 0)->0;
    assert(draws.take(0) =~= Seq::<Draw>::empty());
    if index == 0 {
        let seeded = search.seeded(draws[0].seed);
        lemma_seeded_inv(search, grid, draws[0].seed);
        lemma_next_index_in_range(seeded.option, seeded.frontier, draws[0].chance);
        assert(seeded.frontier =~= seq![Tile::at(origin, search.goals)]);
        assert(grid.contains(seeded.frontier[0].pos));
    } else {
        let upto = draws.take(index);
        assert(upto.take(0) =~= Seq::<Draw>::empty());
        assert(upto[0] == draws[0]);
        lemma_run_homing(search, grid, upto, goal);
        let (now, painted) = run(search, grid, upto);
        lemma_run_inv(search, grid, upto);
        lemma_step_homing(now, painted, origin, goal, draws[index].seed, draws[index].chance);
        assert(now.seeded(draws[index].seed) == now);
    }
}

/// Two searches run against each other: one that takes the nearest tile and
/// a breadth-first one. Both start afresh from `search`, which has the one
/// goal `goal`, on `grid`, which has no walls, and both are seeded with the
/// same start. The first finds the goal in its step number
/// `informed_found`, the second in its step number `blind_found`.
pub open spec fn raced(
    search: SearchView,
    grid: GridView,
    goal: TilePos,
    informed_draws: Seq<Draw>,
    blind_draws: Seq<Draw>,
    informed_found: int,
    blind_found: int,
) -> bool {
    &&& search.inv()
    &&& search.goals == seq![goal]
    &&& grid.wf()
    &&& grid.open()
    &&& search.fits(grid)
    &&& grid.contains(goal)
    &&& 0 <= informed_found < informed_draws.len()
    &&& 0 <= blind_found < blind_draws.len()
    &&& taken_in(search.restarted(AlgorithmOption::AStar), grid, informed_draws, 0) == taken_in(
        search.restarted(AlgorithmOption::BreadthFirst),
        grid,
        blind_draws,
        0,
    )
    &&& run(
        search.restarted(AlgorithmOption::AStar),
        grid,
        informed_draws.take(informed_found),
    ).0.outcome(informed_draws[informed_found].seed, informed_draws[informed_found].chance)
        == Outcome::Found(goal)
    &&& run(
        search.restarted(AlgorithmOption::BreadthFirst),
        grid,
        blind_draws.take(blind_found),
    ).0.outcome(blind_draws[blind_found].seed, blind_draws[blind_found].chance) == Outcome::Found(
        goal,
    )
}

/// A step that is taken before a run is complete takes a tile, unless it
/// completes the run.
pub proof fn lemma_step_before_end_takes(
    search: SearchView,
    grid: GridView,
    draws: Seq<Draw>,
    index: int,
    end: int,
)
    requires
        0 <= index < end <= draws.len(),
        !run(search, grid, draws.take(end)).0.complete,
    ensures
        taken_in(search, grid, draws, index) is Some,
        !run(search, grid, draws.take(index)).0.complete,
{
    if run(search, grid, draws.take(index)).0.complete {
        lemma_run_stays_complete(search, grid, draws, index, end);
    }
    assert(draws.take(index + 1).drop_last() =~= draws.take(index));
    assert(draws.take(index + 1).last() == draws[index]);
    if taken_in(search, grid, draws, index) is None {
        assert(run(search, grid, draws.take(index + 1)).0.complete);
        lemma_run_stays_complete(search, grid, draws, index + 1, end);
    }
}

/// In a race in which the informed search does not find the goal in its
/// first step, the start is not the goal, and the breadth-first search does
/// not find the goal in its first step either.
pub proof fn lemma_race_begins(
    search: SearchView,
    grid: GridView,
    goal: TilePos,
    informed_draws: Seq<Draw>,
    blind_draws: Seq<Draw>,
    informed_found: int,
    blind_found: int,
)
    requires
        raced(search, grid, goal, informed_draws, blind_draws, informed_found, blind_found),
        informed_found > 0,
    ensures
        taken_in(search.restarted(AlgorithmOption::AStar), grid, informed_draws, 0) is Some,
        taken_in(search.restarted(AlgorithmOption::AStar), grid, informed_draws, 0) != Some(goal),
        blind_found > 0,
{
    let informed = search.restarted(AlgorithmOption::AStar);
    let blind = search.restarted(AlgorithmOption::BreadthFirst);
    assert(informed_draws.take(0) =~= Seq::<Draw>::empty());
    assert(blind_draws.take(0) =~= Seq::<Draw>::empty());
    lemma_step_before_end_takes(informed, grid, informed_draws, 0, informed_found);
    let origin = taken_in(informed, grid, informed_draws, 0)->0;
    if origin == goal {
        assert(informed_draws.take(1).drop_last() =~= informed_draws.take(0));
        assert(informed_draws.take(1).last() == informed_draws[0]);
        assert(seq![goal][0] == goal);
        assert(run(informed, grid, informed_draws.take(1)).0.complete);
        lemma_run_stays_complete(informed, grid, informed_draws, 1, informed_found);
    }
    if blind_found == 0 {
        assert(taken_in(blind, grid, blind_draws, 0) == Some(goal));
    }
}

/// In a race, every tile that the informed search takes before it finds the
/// goal was taken by the breadth-first search before it found the goal.
pub proof fn lemma_blind_took_it_too(
    search: SearchView,
    grid: GridView,
    goal: TilePos,
    informed_draws: Seq<Draw>,
    blind_draws: Seq<Draw>,
    informed_found: int,
    blind_found: int,
    index: int,
) -> (place: int)
    requires
        raced(search, grid, goal, informed_draws, blind_draws, informed_found, blind_found),
        0 <= index < informed_found,
    ensures
        taken_in(search.restarted(AlgorithmOption::AStar), grid, informed_draws, index) is Some,
        0 <= place < blind_found,
        taken_in(search.restarted(AlgorithmOption::BreadthFirst), grid, blind_draws, place)
            == taken_in(search.restarted(AlgorithmOption::AStar), grid, informed_draws, index),
{
    let informed = search.restarted(AlgorithmOption::AStar);
    let blind = search.restarted(AlgorithmOption::BreadthFirst);
    lemma_race_begins(search, grid, goal, informed_draws, blind_draws, informed_found, blind_found);
    let origin = taken_in(informed, grid, informed_draws, 0)->0;
    // The tile lies in the rectangle and is not the goal.
    lemma_step_before_end_takes(informed, grid, informed_draws, index, informed_found);
    let pos = taken_in(informed, grid, informed_draws, index)->0;
    lemma_taken_once(informed, grid, informed_draws, index, informed_found);
    assert(pos != goal);
    lemma_taken_in_box(informed, grid, informed_draws, goal, index);
    lemma_box_is_nearer(origin, goal, pos);
    // When the goal stands at the front of its frontier, the breadth-first
    // search is done with every tile that is nearer to the start.
    let upto = blind_draws.take(blind_found);
    assert(upto.take(0) =~= Seq::<Draw>::empty());
    assert(upto[0] == blind_draws[0]);
    assert(blind_draws.take(0) =~= Seq::<Draw>::empty());
    lemma_run_level_order(blind, grid, upto);
    let (now, painted) = run(blind, grid, upto);
    lemma_run_inv(blind, grid, upto);
    lemma_step_level_order(
        now,
        painted,
        origin,
        blind_draws[blind_found].seed,
        blind_draws[blind_found].chance,
    );
    assert(now.seeded(blind_draws[blind_found].seed) == now);
    assert(now.frontier[0].pos == goal);
    assert(now.visited.contains(goal));
    assert(now.depth[goal] == manhattan(origin, goal));
    assert(painted.contains(pos));
    assert(now.visited.contains(pos));
    assert(now.depth[pos] == manhattan(origin, pos));
    if now.queued(pos) {
        let q = choose|q: int| 0 <= q < now.frontier.len() && (#[trigger] now.frontier[q]).pos == pos;
        assert(now.depth[now.frontier[0].pos] <= now.depth[now.frontier[q].pos]);
    }
    assert(done_with(now, pos));
    let place = lemma_done_was_taken(blind, grid, upto, pos);
    assert(upto.take(place) =~= blind_draws.take(place));
    assert(upto[place] == blind_draws[place]);
    place
}

/// On a grid without walls and with one goal, the search that takes the
/// nearest tile finds the goal in no more steps than the breadth-first
/// search: in a race, the number of the step in which the first finds the
/// goal is no greater than that of the step in which the second finds it.
pub proof fn lemma_informed_is_no_slower(
    search: SearchView,
    grid: GridView,
    goal: TilePos,
    informed_draws: Seq<Draw>,
    blind_draws: Seq<Draw>,
    informed_found: int,
    blind_found: int,
)
    requires
        raced(search, grid, goal, informed_draws, blind_draws, informed_found, blind_found),
    ensures
        informed_found <= blind_found,
{
    let informed = search.restarted(AlgorithmOption::AStar);
    let blind = search.restarted(AlgorithmOption::BreadthFirst);
    let places = |i: int|
        choose|j: int|
            0 <= j < blind_found && taken_in(blind, grid, blind_draws, j) == taken_in(
                informed,
                grid,
                informed_draws,
                i,
            );
    assert forall|i: int| 0 <= i < informed_found implies {
        &&& 0 <= #[trigger] places(i) < blind_found
        &&& taken_in(blind, grid, blind_draws, places(i)) == taken_in(
            informed,
            grid,
            informed_draws,
            i,
        )
        &&& taken_in(informed, grid, informed_draws, i) is Some
    } by {
        let place = lemma_blind_took_it_too(
            search,
            grid,
            goal,
            informed_draws,
            blind_draws,
            informed_found,
            blind_found,
            i,
        );
    }
    assert forall|i: int, j: int|
        0 <= i < informed_found && 0 <= j < informed_found && i != j implies #[trigger] places(i)
        != #[trigger] places(j) by {
        assert(0 <= places(i) < blind_found);
        assert(0 <= places(j) < blind_found);
        if i < j {
            lemma_taken_once(informed, grid, informed_draws, i, j);
        } else {
            lemma_taken_once(informed, grid, informed_draws, j, i);
        }
    }
    lemma_pigeonhole(places, informed_found, blind_found);
}

} // verus!
