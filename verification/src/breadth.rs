//! A breadth-first search on a grid without walls takes its tiles in the
//! order of their distance, in steps along the axes, from the start.

use vstd::prelude::*;
use crate::position::TilePos;
use crate::tile::Tile;
use crate::distance::manhattan;
use crate::grid::{GridView, TileState};
use crate::algorithm::{take_next, AlgorithmOption};
use crate::search::{settled, SearchView};
use crate::preserved::{lemma_expand_inv, lemma_seeded_inv, lemma_taken_inv, lemma_visit_inv};
use crate::laws::{
    done_with, lemma_run_inv, lemma_taken_once, lemma_visit_moves_on, lemma_visit_queues_unseen,
    run, taken_in, Draw,
};

verus! {

/// The four neighbours of `pos` were seen.
pub open spec fn closed_around(search: SearchView, pos: TilePos) -> bool {
    &&& search.visited.contains(pos.right())
    &&& search.visited.contains(pos.left())
    &&& search.visited.contains(pos.up())
    &&& search.visited.contains(pos.down())
}

/// `near` and `far` are neighbours, and `far` is one step farther from
/// `origin`.
pub open spec fn steps_away(origin: TilePos, near: TilePos, far: TilePos) -> bool {
    &&& manhattan(origin, far) == manhattan(origin, near) + 1
    &&& far == near.right() || far == near.left() || far == near.up() || far == near.down()
}

/// A neighbour of a coordinate, other than the coordinate itself, is one
/// step nearer to any third coordinate or one step farther from it.
pub proof fn lemma_neighbour_one_step(origin: TilePos, pos: TilePos, k: int)
    requires
        0 <= k < 4,
        pos.adjacent()[k] != pos,
    ensures
        steps_away(origin, pos, pos.adjacent()[k]) || steps_away(origin, pos.adjacent()[k], pos),
{
    let next = pos.adjacent()[k];
    if k == 0 {
        assert(next == pos.right());
        assert(pos == next.left());
    } else if k == 1 {
        assert(next == pos.left());
        assert(pos == next.right());
    } else if k == 2 {
        assert(next == pos.up());
        assert(pos == next.down());
    } else {
        assert(next == pos.down());
        assert(pos == next.up());
    }
}

/// Every coordinate on a grid, but the origin, has a neighbour on the grid
/// that is one step nearer to the origin.
pub proof fn lemma_step_towards(grid: GridView, origin: TilePos, pos: TilePos) -> (near: TilePos)
    requires
        grid.contains(origin),
        grid.contains(pos),
        pos != origin,
    ensures
        grid.contains(near),
        steps_away(origin, near, pos),
{
    if pos.x > origin.x {
        let near = TilePos { x: (pos.x - 1) as u32, y: pos.y };
        assert(pos == near.right());
        near
    } else if pos.x < origin.x {
        let near = TilePos { x: (pos.x + 1) as u32, y: pos.y };
        assert(pos == near.left());
        near
    } else if pos.y > origin.y {
        let near = TilePos { x: pos.x, y: (pos.y - 1) as u32 };
        assert(pos == near.up());
        near
    } else {
        let near = TilePos { x: pos.x, y: (pos.y + 1) as u32 };
        assert(pos == near.down());
        near
    }
}

/// What holds of a breadth-first search on a grid without walls while it
/// looks at the neighbours of `from`, a tile at the depth `level` that it
/// has taken from the front of its frontier.
///
/// Every coordinate on the grid that was seen has its distance from
/// `origin` as its depth. The frontier holds tiles of the depth `level` and
/// behind them tiles of the next depth. The search is done with no
/// coordinate deeper than `level`, and around every coordinate that it is
/// done with, but `from`, all was seen. Every coordinate nearer than
/// `level` was seen.
pub open spec fn expanding(
    search: SearchView,
    grid: GridView,
    origin: TilePos,
    from: TilePos,
    level: nat,
) -> bool {
    &&& search.option == AlgorithmOption::BreadthFirst
    &&& search.inv()
    &&& grid.wf()
    &&& grid.open()
    &&& search.fits(grid)
    &&& grid.contains(origin)
    &&& grid.contains(from)
    &&& done_with(search, from)
    &&& search.depth[from] == level
    &&& forall|pos: TilePos|
        search.visited.contains(pos) && grid.contains(pos) ==> #[trigger] search.depth[pos]
            == manhattan(origin, pos)
    &&& forall|i: int|
        0 <= i < search.frontier.len() ==> level <= search.depth[(#[trigger] search.frontier[i]).pos]
            <= level + 1
    &&& forall|i: int, j: int|
        0 <= i <= j < search.frontier.len() ==> search.depth[(#[trigger] search.frontier[i]).pos]
            <= search.depth[(#[trigger] search.frontier[j]).pos]
    &&& forall|pos: TilePos|
        grid.contains(pos) && pos != from && done_with(search, pos) ==> #[trigger] closed_around(
            search,
            pos,
        )
    &&& forall|pos: TilePos|
        grid.contains(pos) && manhattan(origin, pos) < level ==> #[trigger] search.visited.contains(
            pos,
        )
    &&& forall|pos: TilePos|
        grid.contains(pos) && search.visited.contains(pos) && !search.queued(pos)
            ==> #[trigger] search.depth[pos] <= level
}

/// What holds of a breadth-first search on a grid without walls between
/// two steps, after it has been seeded with `origin`.
///
/// Every coordinate on the grid that was seen has its distance from
/// `origin` as its depth. The frontier is in the order of depth and spans
/// at most two depths. The search is done with no coordinate deeper than
/// the front of the frontier, and around every coordinate that it is done
/// with all was seen. Every coordinate nearer than the front of the
/// frontier was seen.
pub open spec fn level_order(search: SearchView, grid: GridView, origin: TilePos) -> bool {
    &&& search.option == AlgorithmOption::BreadthFirst
    &&& search.inv()
    &&& grid.wf()
    &&& grid.open()
    &&& search.fits(grid)
    &&& grid.contains(origin)
    &&& search.visited.contains(origin)
    &&& forall|pos: TilePos|
        search.visited.contains(pos) && grid.contains(pos) ==> #[trigger] search.depth[pos]
            == manhattan(origin, pos)
    &&& forall|i: int|
        0 <= i < search.frontier.len() ==> search.depth[(#[trigger] search.frontier[i]).pos]
            <= search.depth[search.frontier[0].pos] + 1
    &&& forall|i: int, j: int|
        0 <= i <= j < search.frontier.len() ==> search.depth[(#[trigger] search.frontier[i]).pos]
            <= search.depth[(#[trigger] search.frontier[j]).pos]
    &&& forall|pos: TilePos|
        grid.contains(pos) && done_with(search, pos) ==> #[trigger] closed_around(search, pos)
    &&& search.frontier.len() > 0 ==> forall|pos: TilePos|
        grid.contains(pos) && manhattan(origin, pos) < search.depth[search.frontier[0].pos]
            ==> #[trigger] search.visited.contains(pos)
    &&& search.frontier.len() > 0 ==> forall|pos: TilePos|
        grid.contains(pos) && search.visited.contains(pos) && !search.queued(pos)
            ==> #[trigger] search.depth[pos] <= search.depth[search.frontier[0].pos]
}

/// While a breadth-first search looks at the neighbours of a tile, a look
/// at one of them keeps what [`expanding`] says, and that neighbour is seen
/// afterwards.
pub proof fn lemma_visit_expanding(
    search: SearchView,
    grid: GridView,
    origin: TilePos,
    from: TilePos,
    level: nat,
    k: int,
)
    requires
        expanding(search, grid, origin, from, level),
        0 <= k < 4,
    ensures
        ({
            let to = from.adjacent()[k];
            let (after, marked) = search.visit(grid, from, to);
            &&& expanding(after, marked, origin, from, level)
            &&& after.visited.contains(to)
            &&& forall|pos: TilePos| search.visited.contains(pos) ==> after.visited.contains(pos)
        }),
{
    let to = from.adjacent()[k];
    let (after, marked) = search.visit(grid, from, to);
    lemma_visit_inv(search, grid, from, to);
    if !search.visited.contains(to) {
        assert(to != from);
        assert(search.depth[from] == manhattan(origin, from));
        assert forall|pos: TilePos| grid.contains(pos) implies marked.tiles[pos]
            != TileState::Wall by {
            lemma_visit_moves_on(search, grid, from, to, pos);
        }
        assert forall|i: int| 0 <= i < search.frontier.len() implies (
        #[trigger] search.frontier[i]).pos != to by {
            assert(search.visited.contains(search.frontier[i].pos));
        }
        if grid.contains(to) {
            lemma_neighbour_one_step(origin, from, k);
            if steps_away(origin, to, from) {
                assert(search.visited.contains(to));
            }
            assert(manhattan(origin, to) == level + 1);
            assert(after.frontier =~= search.frontier.push(Tile::at(to, search.goals)));
            assert(after.frontier[search.frontier.len() as int].pos == to);
            assert(after.queued(to));
        } else {
            assert(after.frontier == search.frontier);
        }
        assert(!after.queued(from)) by {
            if after.queued(from) {
                let i = choose|i: int|
                    0 <= i < after.frontier.len() && (#[trigger] after.frontier[i]).pos == from;
                if i < search.frontier.len() {
                    assert(search.frontier[i].pos == from);
                }
            }
        }
        assert forall|pos: TilePos|
            marked.contains(pos) && pos != from && done_with(after, pos) implies #[trigger] closed_around(
            after,
            pos,
        ) by {
            lemma_visit_queues_unseen(search, grid, from, to, pos);
            assert(pos != to);
            if search.queued(pos) {
                assert(after.queued(pos));
            }
            assert(done_with(search, pos));
            assert(closed_around(search, pos));
        }
        assert forall|pos: TilePos|
            marked.contains(pos) && after.visited.contains(pos) && !after.queued(
                pos,
            ) implies #[trigger] after.depth[pos] <= level by {
            assert(pos != to);
            if search.queued(pos) {
                assert(after.queued(pos));
            }
            assert(search.depth[pos] <= level);
        }
        assert forall|pos: TilePos|
            after.visited.contains(pos) && marked.contains(pos) implies #[trigger] after.depth[pos]
            == manhattan(origin, pos) by {
            if pos != to {
                assert(search.depth[pos] == manhattan(origin, pos));
            }
        }
        assert forall|i: int| 0 <= i < after.frontier.len() implies level <= after.depth[(
        #[trigger] after.frontier[i]).pos] <= level + 1 by {
            if i < search.frontier.len() {
                assert(search.frontier[i].pos != to);
                assert(after.frontier[i] == search.frontier[i]);
            }
        }
        assert forall|i: int, j: int| 0 <= i <= j < after.frontier.len() implies after.depth[(
        #[trigger] after.frontier[i]).pos] <= after.depth[(#[trigger] after.frontier[j]).pos] by {
            if i < search.frontier.len() {
                assert(search.frontier[i].pos != to);
                assert(after.frontier[i] == search.frontier[i]);
            }
            if j < search.frontier.len() {
                assert(search.frontier[j].pos != to);
                assert(after.frontier[j] == search.frontier[j]);
            }
        }
    }
}

/// Looking at the first `count` neighbours of a tile keeps what
/// [`expanding`] says, and those neighbours are seen afterwards.
pub proof fn lemma_expand_expanding(
    search: SearchView,
    grid: GridView,
    origin: TilePos,
    from: TilePos,
    level: nat,
    count: nat,
)
    requires
        expanding(search, grid, origin, from, level),
        count <= 4,
    ensures
        ({
            let (after, marked) = search.expand(grid, from, count);
            &&& expanding(after, marked, origin, from, level)
            &&& forall|k: int| 0 <= k < count ==> after.visited.contains(#[trigger] from.adjacent()[k])
            &&& forall|pos: TilePos| search.visited.contains(pos) ==> after.visited.contains(pos)
        }),
    decreases count,
{
    if count > 0 {
        lemma_expand_expanding(search, grid, origin, from, level, (count - 1) as nat);
        let (middle, painted) = search.expand(grid, from, (count - 1) as nat);
        lemma_visit_expanding(middle, painted, origin, from, level, count - 1);
    }
}

/// A step of a breadth-first search on a grid without walls takes the tile
/// at the front of the frontier and keeps what [`level_order`] says, unless
/// it completes the search.
pub proof fn lemma_step_level_order(
    search: SearchView,
    grid: GridView,
    origin: TilePos,
    seed: Option<int>,
    chance: Option<int>,
)
    requires
        level_order(search, grid, origin),
        !search.complete,
    ensures
        ({
            let (after, marked) = search.step(grid, seed, chance);
            after.complete || level_order(after, marked, origin)
        }),
        search.taken(seed, chance) == if search.frontier.len() > 0 {
            Some(search.frontier[0])
        } else {
            None
        },
{
    assert(search.seeded(seed) == search);
    let (taken, rest) = take_next(search.option, search.frontier, chance);
    let ready = SearchView { frontier: rest, ..search };
    lemma_taken_inv(search, grid, chance);
    if search.frontier.len() > 0 {
        let tile = search.frontier[0];
        let from = tile.pos;
        assert(taken == Some(tile));
        assert(rest == search.frontier.remove(0));
        if !search.goals.contains(from) {
            let level = search.depth[from];
            assert forall|i: int| 0 <= i < rest.len() implies #[trigger] rest[i]
                == search.frontier[i + 1] by {}
            assert forall|pos: TilePos| pos != from && !ready.queued(pos) implies !search.queued(
                pos,
            ) by {
                if search.queued(pos) {
                    let i = choose|i: int|
                        0 <= i < search.frontier.len() && (#[trigger] search.frontier[i]).pos == pos;
                    assert(rest[i - 1].pos == pos);
                }
            }
            assert forall|i: int| 0 <= i < rest.len() implies level <= ready.depth[(
            #[trigger] rest[i]).pos] <= level + 1 by {
                assert(rest[i] == search.frontier[i + 1]);
            }
            assert forall|i: int, j: int| 0 <= i <= j < rest.len() implies ready.depth[(
            #[trigger] rest[i]).pos] <= ready.depth[(#[trigger] rest[j]).pos] by {
                assert(rest[i] == search.frontier[i + 1]);
                assert(rest[j] == search.frontier[j + 1]);
            }
            assert forall|pos: TilePos|
                grid.contains(pos) && pos != from && done_with(ready, pos) implies #[trigger] closed_around(
                ready,
                pos,
            ) by {
                assert(done_with(search, pos));
                assert(closed_around(search, pos));
            }
            assert forall|pos: TilePos|
                grid.contains(pos) && ready.visited.contains(pos) && !ready.queued(
                    pos,
                ) implies #[trigger] ready.depth[pos] <= level by {
                if pos != from {
                    assert(!search.queued(pos));
                }
            }
            assert(expanding(ready, grid, origin, from, level));
            lemma_expand_expanding(ready, grid, origin, from, level, 4);
            lemma_expand_inv(ready, grid, from, 4);
            let (grown, painted) = ready.expand(grid, from, 4);
            let after = SearchView { steps: grown.steps + 1, ..grown };
            let marked = settled(painted, from);
            assert((after, marked) == search.step(grid, seed, chance));
            assert(grown.visited.contains(from.adjacent()[0]));
            assert(grown.visited.contains(from.adjacent()[1]));
            assert(grown.visited.contains(from.adjacent()[2]));
            assert(grown.visited.contains(from.adjacent()[3]));
            assert(closed_around(grown, from));
            assert forall|pos: TilePos| after.queued(pos) == grown.queued(pos) by {
                if after.queued(pos) {
                    let i = choose|i: int|
                        0 <= i < after.frontier.len() && (#[trigger] after.frontier[i]).pos == pos;
                    assert(grown.frontier[i].pos == pos);
                }
                if grown.queued(pos) {
                    let i = choose|i: int|
                        0 <= i < grown.frontier.len() && (#[trigger] grown.frontier[i]).pos == pos;
                    assert(after.frontier[i].pos == pos);
                }
            }
            assert forall|pos: TilePos|
                marked.contains(pos) && done_with(after, pos) implies #[trigger] closed_around(
                after,
                pos,
            ) by {
                assert(done_with(grown, pos));
                if pos != from {
                    assert(closed_around(grown, pos));
                }
            }
            assert forall|pos: TilePos|
                after.visited.contains(pos) && marked.contains(pos) implies #[trigger] after.depth[pos]
                == manhattan(origin, pos) by {
                assert(grown.depth[pos] == manhattan(origin, pos));
            }
            if after.frontier.len() > 0 {
                let front = after.depth[after.frontier[0].pos];
                assert(level <= grown.depth[grown.frontier[0].pos] <= level + 1);
                assert forall|pos: TilePos|
                    marked.contains(pos) && manhattan(origin, pos) < front implies #[trigger] after.visited.contains(
                    pos,
                ) by {
                    if manhattan(origin, pos) < level {
                        assert(grown.visited.contains(pos));
                    } else if pos == origin {
                    } else {
                        let near = lemma_step_towards(grid, origin, pos);
                        assert(grown.visited.contains(near));
                        assert(grown.depth[near] == manhattan(origin, near));
                        if grown.queued(near) {
                            let i = choose|i: int|
                                0 <= i < grown.frontier.len() && (#[trigger] grown.frontier[i]).pos
                                    == near;
                            assert(grown.depth[grown.frontier[0].pos] <= grown.depth[grown.frontier[i].pos]);
                        }
                        assert(done_with(grown, near));
                        if near != from {
                            assert(closed_around(grown, near));
                        }
                        assert(closed_around(grown, near));
                    }
                }
                assert forall|pos: TilePos|
                    marked.contains(pos) && after.visited.contains(pos) && !after.queued(
                        pos,
                    ) implies #[trigger] after.depth[pos] <= front by {
                    assert(!grown.queued(pos));
                    assert(grown.depth[pos] <= level);
                }
            }
            assert forall|i: int| 0 <= i < after.frontier.len() implies after.depth[(
            #[trigger] after.frontier[i]).pos] <= after.depth[after.frontier[0].pos] + 1 by {
                assert(level <= grown.depth[grown.frontier[i].pos] <= level + 1);
                assert(level <= grown.depth[grown.frontier[0].pos] <= level + 1);
            }
            assert forall|i: int, j: int| 0 <= i <= j < after.frontier.len() implies after.depth[(
            #[trigger] after.frontier[i]).pos] <= after.depth[(#[trigger] after.frontier[j]).pos] by {
                assert(grown.depth[grown.frontier[i].pos] <= grown.depth[grown.frontier[j].pos]);
            }
            assert forall|pos: TilePos| marked.contains(pos) implies marked.tiles[pos]
                != TileState::Wall by {
                assert(painted.contains(pos));
            }
            assert(after.fits(marked));
            assert(level_order(after, marked, origin));
        }
    }
}

/// A run that is complete after some of its steps is complete after any
/// more of them.
pub proof fn lemma_run_stays_complete(
    search: SearchView,
    grid: GridView,
    draws: Seq<Draw>,
    early: int,
    late: int,
)
    requires
        0 <= early <= late <= draws.len(),
        run(search, grid, draws.take(early)).0.complete,
    ensures
        run(search, grid, draws.take(late)).0.complete,
    decreases late - early,
{
    if early < late {
        lemma_run_stays_complete(search, grid, draws, early, late - 1);
        assert(draws.take(late).drop_last() =~= draws.take(late - 1));
    }
}

/// After the first step of a run, a breadth-first search that started
/// afresh on a grid without walls is complete or keeps what
/// [`level_order`] says of it and the start that it was seeded with.
pub proof fn lemma_run_level_order(search: SearchView, grid: GridView, draws: Seq<Draw>)
    requires
        search == search.restarted(AlgorithmOption::BreadthFirst),
        search.inv(),
        grid.wf(),
        grid.open(),
        search.fits(grid),
        draws.len() >= 1,
        taken_in(search, grid, draws, 0) is Some,
    ensures
        ({
            let origin = taken_in(search, grid, draws, 0)->0;
            let (after, marked) = run(search, grid, draws);
            after.complete || level_order(after, marked, origin)
        }),
    decreases draws.len(),
{
    let origin = taken_in(search, grid, draws, 0)->0;
    assert(draws.take(0) =~= Seq::<Draw>::empty());
    let seed = draws[0].seed;
    let chance = draws[0].chance;
    if draws.len() == 1 {
        assert(draws.drop_last() =~= Seq::<Draw>::empty());
        assert(draws.last() == draws[0]);
        let seeded = search.seeded(seed);
        lemma_seeded_inv(search, grid, seed);
        assert(seeded.frontier.len() > 0);
        assert(seeded.frontier =~= seq![Tile::at(origin, search.goals)]);
        assert(seeded.seeded(seed) == seeded);
        assert(search.step(grid, seed, chance) == seeded.step(grid, seed, chance));
        assert(seeded.frontier[0].pos == origin);
        assert forall|pos: TilePos| seeded.visited.contains(pos) implies seeded.queued(pos) by {
            assert(pos == origin);
        }
        assert(grid.contains(seeded.frontier[0].pos));
        assert(level_order(seeded, grid, origin));
        lemma_step_level_order(seeded, grid, origin, seed, chance);
    } else {
        let prefix = draws.drop_last();
        assert(prefix.take(0) =~= Seq::<Draw>::empty());
        assert(prefix[0] == draws[0]);
        lemma_run_level_order(search, grid, prefix);
        let (before, painted) = run(search, grid, prefix);
        if !before.complete {
            lemma_step_level_order(before, painted, origin, draws.last().seed, draws.last().chance);
        }
    }
}

/// A breadth-first search that starts afresh on a grid without walls takes
/// its tiles in the order of their distance from the start that it was
/// seeded with, counted in steps along the axes: a tile that is taken later
/// is no nearer.
pub proof fn lemma_breadth_first_by_distance(
    search: SearchView,
    grid: GridView,
    draws: Seq<Draw>,
    first: int,
    second: int,
)
    requires
        search == search.restarted(AlgorithmOption::BreadthFirst),
        search.inv(),
        grid.wf(),
        grid.open(),
        search.fits(grid),
        0 <= first <= second < draws.len(),
        taken_in(search, grid, draws, first) is Some,
        taken_in(search, grid, draws, second) is Some,
    ensures
        taken_in(search, grid, draws, 0) is Some,
        manhattan(taken_in(search, grid, draws, 0)->0, taken_in(search, grid, draws, first)->0)
            <= manhattan(
            taken_in(search, grid, draws, 0)->0,
            taken_in(search, grid, draws, second)->0,
        ),
{
    assert(draws.take(0) =~= Seq::<Draw>::empty());
    if taken_in(search, grid, draws, 0) is None {
        assert(draws.take(1).drop_last() =~= draws.take(0));
        assert(draws.take(1).last() == draws[0]);
        assert(run(search, grid, draws.take(1)).0.complete);
        lemma_run_stays_complete(search, grid, draws, 1, second);
    }
    let origin = taken_in(search, grid, draws, 0)->0;
    if first < second {
        let near = taken_in(search, grid, draws, first)->0;
        let far = taken_in(search, grid, draws, second)->0;
        lemma_taken_once(search, grid, draws, first, second);
        let upto = draws.take(second);
        assert(upto.take(0) =~= Seq::<Draw>::empty());
        assert(upto[0] == draws[0]);
        lemma_run_level_order(search, grid, upto);
        let (now, painted) = run(search, grid, upto);
        lemma_step_level_order(now, painted, origin, draws[second].seed, draws[second].chance);
        assert(now.seeded(draws[second].seed) == now);
        assert(far == now.frontier[0].pos);
        let (then, canvas) = run(search, grid, draws.take(first));
        lemma_run_inv(search, grid, draws.take(first));
        lemma_run_inv(search, grid, upto);
        lemma_seeded_inv(then, canvas, draws[first].seed);
        lemma_taken_inv(then.seeded(draws[first].seed), canvas, draws[first].chance);
        assert(painted.contains(near));
        assert(now.visited.contains(far));
        assert(painted.contains(far));
        assert(now.depth[near] <= now.depth[far]);
        assert(now.depth[near] == manhattan(origin, near));
        assert(now.depth[far] == manhattan(origin, far));
    }
}

} // verus!
