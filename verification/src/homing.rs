//! On a grid without walls, a search that takes the tile nearest to its one
//! goal never leaves the rectangle spanned by its start and the goal.

use vstd::prelude::*;
use crate::position::TilePos;
use crate::tile::Tile;
use crate::distance::{
    euclid, floor_sqrt, heuristic, lemma_euclid_fits, lemma_floor_sqrt,
    lemma_floor_sqrt_monotonic, span,
};
use crate::grid::{GridView, TileState};
use crate::algorithm::{
    is_first_nearest, lemma_first_nearest_exists, next_index, take_next, AlgorithmOption,
};
use crate::search::{settled, SearchView};
use crate::preserved::{
    lemma_expand_inv, lemma_same_frontier, lemma_taken_inv, lemma_visit_inv,
};
use crate::laws::{done_with, lemma_visit_moves_on, lemma_visit_queues_unseen};
use crate::breadth::closed_around;

verus! {

/// `value` lies between `a` and `b`, whichever of the two is the greater.
pub open spec fn between(a: u32, b: u32, value: u32) -> bool {
    (a <= value && value <= b) || (b <= value && value <= a)
}

/// `pos` lies in the rectangle of which `origin` and `goal` are two
/// opposite corners.
pub open spec fn in_box(origin: TilePos, goal: TilePos, pos: TilePos) -> bool {
    between(origin.x, goal.x, pos.x) && between(origin.y, goal.y, pos.y)
}

/// The square of the straight distance between `a` and `b`.
pub open spec fn square(a: TilePos, b: TilePos) -> nat {
    span(a.x, b.x) * span(a.x, b.x) + span(a.y, b.y) * span(a.y, b.y)
}

/// `near` is one of the four neighbours of `pos`, and not `pos` itself.
pub open spec fn beside(pos: TilePos, near: TilePos) -> bool {
    near != pos && (near == pos.right() || near == pos.left() || near == pos.up() || near
        == pos.down())
}

/// The neighbour of `pos` that lies one step nearer to `goal` along the axis
/// on which `pos` is farther from it.
pub open spec fn homeward(goal: TilePos, pos: TilePos) -> TilePos {
    if span(pos.x, goal.x) >= span(pos.y, goal.y) {
        if pos.x > goal.x {
            pos.left()
        } else {
            pos.right()
        }
    } else {
        if pos.y > goal.y {
            pos.down()
        } else {
            pos.up()
        }
    }
}

/// With one goal, the distance that a tile is queued with is its distance
/// to that goal.
pub proof fn lemma_one_goal(pos: TilePos, goal: TilePos)
    ensures
        heuristic(pos, seq![goal]) == euclid(pos, goal),
        euclid(pos, goal) == floor_sqrt(square(pos, goal)),
        Tile::at(pos, seq![goal]).distance == euclid(pos, goal),
{
    assert(seq![goal].len() == 1);
    assert(seq![goal][0] == goal);
    lemma_euclid_fits(pos, goal);
}

/// The square of a sum of two numbers.
proof fn lemma_square_of_next(a: nat)
    ensures
        (a + 1) * (a + 1) == a * a + 2 * a + 1,
{
    assert((a + 1) * (a + 1) == a * a + 2 * a + 1) by (nonlinear_arith);
}

/// The step homeward from a coordinate in the rectangle stays in the
/// rectangle and on the grid, and brings the straight distance to the goal
/// down.
pub proof fn lemma_homeward(grid: GridView, origin: TilePos, goal: TilePos, pos: TilePos)
    requires
        grid.contains(goal),
        grid.contains(pos),
        in_box(origin, goal, pos),
        pos != goal,
    ensures
        grid.contains(homeward(goal, pos)),
        in_box(origin, goal, homeward(goal, pos)),
        beside(pos, homeward(goal, pos)),
        square(homeward(goal, pos), goal) < square(pos, goal),
        square(homeward(goal, pos), goal) + 2 * (if span(pos.x, goal.x) >= span(pos.y, goal.y) {
            span(pos.x, goal.x)
        } else {
            span(pos.y, goal.y)
        }) == square(pos, goal) + 1,
{
    let near = homeward(goal, pos);
    let a = span(pos.x, goal.x);
    let b = span(pos.y, goal.y);
    if a >= b {
        assert(a >= 1);
        assert(span(near.x, goal.x) == a - 1);
        assert(span(near.y, goal.y) == b);
        lemma_square_of_next((a - 1) as nat);
    } else {
        assert(b >= 1);
        assert(span(near.y, goal.y) == b - 1);
        assert(span(near.x, goal.x) == a);
        lemma_square_of_next((b - 1) as nat);
    }
}

/// A neighbour outside the rectangle of a coordinate inside it is farther
/// from the goal: the square of its straight distance is greater by twice
/// the span along the axis of the step, and one.
pub proof fn lemma_outward(origin: TilePos, goal: TilePos, pos: TilePos, out: TilePos) -> (along: nat)
    requires
        in_box(origin, goal, pos),
        beside(pos, out),
        !in_box(origin, goal, out),
    ensures
        along == span(pos.x, goal.x) || along == span(pos.y, goal.y),
        square(out, goal) == square(pos, goal) + 2 * along + 1,
        euclid(pos, goal) <= euclid(out, goal),
{
    let a = span(pos.x, goal.x);
    let b = span(pos.y, goal.y);
    if out.x != pos.x {
        assert(out.y == pos.y);
        assert(span(out.x, goal.x) == a + 1);
        lemma_square_of_next(a);
        lemma_floor_sqrt_monotonic(square(pos, goal), square(out, goal));
        a
    } else {
        assert(span(out.y, goal.y) == b + 1);
        lemma_square_of_next(b);
        lemma_floor_sqrt_monotonic(square(pos, goal), square(out, goal));
        b
    }
}

/// Where a step away from the goal does not raise the rounded distance,
/// the step homeward lowers it.
pub proof fn lemma_plateau_breaks(a: nat, b: nat, along: nat)
    requires
        along == a || along == b,
        a + b > 0,
        floor_sqrt(a * a + b * b + 2 * along + 1) == floor_sqrt(a * a + b * b),
    ensures
        floor_sqrt((a * a + b * b + 1 - 2 * (if a >= b { a } else { b })) as nat) < floor_sqrt(
            a * a + b * b,
        ),
{
    let whole = a * a + b * b;
    let most = if a >= b { a } else { b };
    let root = floor_sqrt(whole);
    assert(most * most + 1 >= 2 * most) by (nonlinear_arith);
    assert(whole >= most * most) by (nonlinear_arith)
        requires
            whole == a * a + b * b,
            most == a || most == b,
    ;
    let less = (whole + 1 - 2 * most) as nat;
    lemma_floor_sqrt(whole);
    lemma_floor_sqrt(whole + 2 * along + 1);
    lemma_floor_sqrt(less);
    let low = floor_sqrt(less);
    if low >= root {
        assert(root * root <= low * low) by (nonlinear_arith)
            requires
                root <= low,
        ;
        assert((root + 1) * (root + 1) == root * root + 2 * root + 1) by (nonlinear_arith);
        assert(root >= along + most);
        assert(root * root >= (along + most) * (along + most)) by (nonlinear_arith)
            requires
                root >= along + most,
        ;
        assert((along + most) * (along + most) == along * along + 2 * along * most + most * most)
            by (nonlinear_arith);
        assert(whole <= along * along + most * most) by (nonlinear_arith)
            requires
                whole == a * a + b * b,
                along == a || along == b,
                most == (if a >= b { a } else { b }),
        ;
        assert(along * most >= 0) by (nonlinear_arith);
        assert(false);
    }
}

/// Some tile of the frontier lies in the rectangle and was queued with a
/// distance below `bound`.
pub open spec fn beaten(search: SearchView, origin: TilePos, goal: TilePos, bound: int) -> bool {
    exists|j: int|
        0 <= j < search.frontier.len() && in_box(origin, goal, (#[trigger] search.frontier[j]).pos)
            && search.frontier[j].distance < bound
}

/// Every tile of the frontier was queued with its distance to `goal`.
pub open spec fn measured(search: SearchView, goal: TilePos) -> bool {
    forall|i: int|
        0 <= i < search.frontier.len() ==> (#[trigger] search.frontier[i]).distance == euclid(
            search.frontier[i].pos,
            goal,
        )
}

/// What holds between two steps of a search that takes the nearest tile,
/// on a grid without walls and with the one goal `goal`, after it has been
/// seeded with `origin`.
///
/// Around every coordinate that the search is done with all was seen, and
/// all such coordinates lie in the rectangle of `origin` and `goal`. The
/// search is not done with the goal. For every tile of the frontier that
/// lies outside the rectangle, one inside it was queued with a smaller
/// distance.
pub open spec fn homing(search: SearchView, grid: GridView, origin: TilePos, goal: TilePos) -> bool {
    &&& search.option == AlgorithmOption::AStar
    &&& search.inv()
    &&& grid.wf()
    &&& grid.open()
    &&& search.fits(grid)
    &&& search.goals == seq![goal]
    &&& grid.contains(origin)
    &&& grid.contains(goal)
    &&& search.visited.contains(origin)
    &&& forall|pos: TilePos|
        grid.contains(pos) && done_with(search, pos) ==> #[trigger] closed_around(search, pos)
    &&& forall|pos: TilePos|
        grid.contains(pos) && search.visited.contains(pos) && !search.queued(pos) ==> #[trigger] in_box(
            origin,
            goal,
            pos,
        )
    &&& !done_with(search, goal)
    &&& measured(search, goal)
    &&& forall|i: int|
        0 <= i < search.frontier.len() && !in_box(origin, goal, (#[trigger] search.frontier[i]).pos)
            ==> beaten(search, origin, goal, search.frontier[i].distance as int)
}

/// What holds of such a search while it looks at the neighbours of `from`,
/// a tile in the rectangle that it has taken from its frontier, which was
/// `base` after that.
pub open spec fn homing_in(
    search: SearchView,
    grid: GridView,
    origin: TilePos,
    goal: TilePos,
    from: TilePos,
    base: Seq<Tile>,
) -> bool {
    &&& search.option == AlgorithmOption::AStar
    &&& search.inv()
    &&& grid.wf()
    &&& grid.open()
    &&& search.fits(grid)
    &&& search.goals == seq![goal]
    &&& grid.contains(origin)
    &&& grid.contains(goal)
    &&& grid.contains(from)
    &&& search.visited.contains(origin)
    &&& in_box(origin, goal, from)
    &&& from != goal
    &&& done_with(search, from)
    &&& forall|pos: TilePos|
        grid.contains(pos) && pos != from && done_with(search, pos) ==> #[trigger] closed_around(
            search,
            pos,
        )
    &&& forall|pos: TilePos|
        grid.contains(pos) && search.visited.contains(pos) && !search.queued(pos) ==> #[trigger] in_box(
            origin,
            goal,
            pos,
        )
    &&& !done_with(search, goal)
    &&& measured(search, goal)
    &&& base.len() <= search.frontier.len()
    &&& forall|i: int| 0 <= i < base.len() ==> #[trigger] search.frontier[i] == base[i]
    &&& forall|i: int|
        base.len() <= i < search.frontier.len() ==> beside(from, (#[trigger] search.frontier[i]).pos)
}

/// While such a search looks at the neighbours of a tile, a look at one of
/// them keeps what [`homing_in`] says, and that neighbour is seen
/// afterwards.
pub proof fn lemma_visit_homing_in(
    search: SearchView,
    grid: GridView,
    origin: TilePos,
    goal: TilePos,
    from: TilePos,
    base: Seq<Tile>,
    k: int,
)
    requires
        homing_in(search, grid, origin, goal, from, base),
        0 <= k < 4,
    ensures
        ({
            let to = from.adjacent()[k];
            let (after, marked) = search.visit(grid, from, to);
            &&& homing_in(after, marked, origin, goal, from, base)
            &&& after.visited.contains(to)
            &&& forall|pos: TilePos| search.visited.contains(pos) ==> after.visited.contains(pos)
        }),
{
    let to = from.adjacent()[k];
    let (after, marked) = search.visit(grid, from, to);
    lemma_visit_inv(search, grid, from, to);
    if !search.visited.contains(to) {
        assert(to != from);
        assert(beside(from, to));
        assert forall|pos: TilePos| grid.contains(pos) implies marked.tiles[pos]
            != TileState::Wall by {
            lemma_visit_moves_on(search, grid, from, to, pos);
        }
        assert forall|i: int| 0 <= i < search.frontier.len() implies (
        #[trigger] search.frontier[i]).pos != to by {
            assert(search.visited.contains(search.frontier[i].pos));
        }
        if grid.contains(to) {
            lemma_one_goal(to, goal);
            assert(after.frontier =~= search.frontier.push(Tile::at(to, search.goals)));
            assert(after.frontier[search.frontier.len() as int].pos == to);
            assert(after.queued(to));
        } else {
            assert(after.frontier == search.frontier);
        }
        assert(!after.queued(from)) by {
            if after.queued(from) {
                let i = choose|i: int|
                    0 <= i < after.frontier.len() && (#[trigger] after.frontier[i]).pos == from;
                if i < search.frontier.len() {
                    assert(search.frontier[i].pos == from);
                }
            }
        }
        assert forall|pos: TilePos|
            marked.contains(pos) && pos != from && done_with(after, pos) implies #[trigger] closed_around(
            after,
            pos,
        ) by {
            lemma_visit_queues_unseen(search, grid, from, to, pos);
            assert(pos != to);
            if search.queued(pos) {
                assert(after.queued(pos));
            }
            assert(done_with(search, pos));
            assert(closed_around(search, pos));
        }
        assert forall|pos: TilePos|
            marked.contains(pos) && after.visited.contains(pos) && !after.queued(
                pos,
            ) implies #[trigger] in_box(origin, goal, pos) by {
            assert(pos != to);
            if search.queued(pos) {
                assert(after.queued(pos));
            }
        }
        assert(!done_with(after, goal)) by {
            if search.queued(goal) {
                assert(after.queued(goal));
            }
        }
        assert forall|i: int| 0 <= i < after.frontier.len() implies (
        #[trigger] after.frontier[i]).distance == euclid(after.frontier[i].pos, goal) by {
            if i < search.frontier.len() {
                assert(after.frontier[i] == search.frontier[i]);
            }
        }
        assert forall|i: int| 0 <= i < base.len() implies #[trigger] after.frontier[i]
            == base[i] by {
            assert(after.frontier[i] == search.frontier[i]);
        }
        assert forall|i: int| base.len() <= i < after.frontier.len() implies beside(
            from,
            (#[trigger] after.frontier[i]).pos,
        ) by {
            if i < search.frontier.len() {
                assert(after.frontier[i] == search.frontier[i]);
            }
        }
    }
}

/// Looking at the first `count` neighbours of a tile keeps what
/// [`homing_in`] says, and those neighbours are seen afterwards.
pub proof fn lemma_expand_homing_in(
    search: SearchView,
    grid: GridView,
    origin: TilePos,
    goal: TilePos,
    from: TilePos,
    base: Seq<Tile>,
    count: nat,
)
    requires
        homing_in(search, grid, origin, goal, from, base),
        count <= 4,
    ensures
        ({
            let (after, marked) = search.expand(grid, from, count);
            &&& homing_in(after, marked, origin, goal, from, base)
            &&& forall|k: int| 0 <= k < count ==> after.visited.contains(#[trigger] from.adjacent()[k])
            &&& forall|pos: TilePos| search.visited.contains(pos) ==> after.visited.contains(pos)
        }),
    decreases count,
{
    if count > 0 {
        lemma_expand_homing_in(search, grid, origin, goal, from, base, (count - 1) as nat);
        let (middle, painted) = search.expand(grid, from, (count - 1) as nat);
        lemma_visit_homing_in(middle, painted, origin, goal, from, base, count - 1);
    }
}

/// Where around every coordinate that a search is done with all was seen,
/// and all of them lie in the rectangle, and the goal is not among them,
/// the frontier holds, for each of them, a tile in the rectangle that lies
/// straighter to the goal.
pub proof fn lemma_reaches_below(
    search: SearchView,
    grid: GridView,
    origin: TilePos,
    goal: TilePos,
    pos: TilePos,
) -> (j: int)
    requires
        grid.contains(goal),
        forall|at: TilePos|
            grid.contains(at) && done_with(search, at) ==> #[trigger] closed_around(search, at),
        forall|at: TilePos|
            grid.contains(at) && search.visited.contains(at) && !search.queued(at) ==> #[trigger] in_box(
                origin,
                goal,
                at,
            ),
        !done_with(search, goal),
        grid.contains(pos),
        done_with(search, pos),
    ensures
        0 <= j < search.frontier.len(),
        in_box(origin, goal, search.frontier[j].pos),
        square(search.frontier[j].pos, goal) < square(pos, goal),
    decreases square(pos, goal),
{
    assert(in_box(origin, goal, pos));
    lemma_homeward(grid, origin, goal, pos);
    let near = homeward(goal, pos);
    assert(closed_around(search, pos));
    assert(search.visited.contains(near));
    if search.queued(near) {
        let j = choose|j: int| 0 <= j < search.frontier.len() && (#[trigger] search.frontier[j]).pos == near;
        j
    } else {
        lemma_reaches_below(search, grid, origin, goal, near)
    }
}

/// A step of a search that takes the nearest tile, on a grid without walls
/// and with one goal, takes a tile in the rectangle of its start and the
/// goal, and keeps what [`homing`] says unless it completes the search.
pub proof fn lemma_step_homing(
    search: SearchView,
    grid: GridView,
    origin: TilePos,
    goal: TilePos,
    seed: Option<int>,
    chance: Option<int>,
)
    requires
        homing(search, grid, origin, goal),
        !search.complete,
    ensures
        ({
            let (after, marked) = search.step(grid, seed, chance);
            after.complete || homing(after, marked, origin, goal)
        }),
        search.taken(seed, chance) matches Some(tile) ==> in_box(origin, goal, tile.pos)
            && grid.contains(tile.pos),
{
    assert(search.seeded(seed) == search);
    let (taken, rest) = take_next(search.option, search.frontier, chance);
    let ready = SearchView { frontier: rest, ..search };
    lemma_taken_inv(search, grid, chance);
    assert(seq![goal][0] == goal);
    if search.frontier.len() > 0 {
        let nearest = lemma_first_nearest_exists(search.frontier);
        let index = next_index(search.option, search.frontier, chance)->0;
        assert(is_first_nearest(search.frontier, index));
        let tile = search.frontier[index];
        let from = tile.pos;
        assert(taken == Some(tile));
        assert(rest == search.frontier.remove(index));
        assert(in_box(origin, goal, from)) by {
            if !in_box(origin, goal, from) {
                assert(beaten(search, origin, goal, tile.distance as int));
                let j = choose|j: int|
                    0 <= j < search.frontier.len() && in_box(
                        origin,
                        goal,
                        (#[trigger] search.frontier[j]).pos,
                    ) && search.frontier[j].distance < tile.distance;
                assert(search.frontier[index].distance <= search.frontier[j].distance);
            }
        }
        assert(grid.contains(from));
        if !search.goals.contains(from) {
            assert(from != goal);
            assert forall|i: int| 0 <= i < rest.len() implies #[trigger] rest[i]
                == search.frontier[if i < index { i } else { i + 1 }] by {}
            assert forall|pos: TilePos| pos != from && !ready.queued(pos) implies !search.queued(
                pos,
            ) by {
                if search.queued(pos) {
                    let i = choose|i: int|
                        0 <= i < search.frontier.len() && (#[trigger] search.frontier[i]).pos == pos;
                    assert(i != index);
                    assert(rest[if i < index { i } else { i - 1 }].pos == pos);
                }
            }
            assert forall|pos: TilePos|
                grid.contains(pos) && pos != from && done_with(ready, pos) implies #[trigger] closed_around(
                ready,
                pos,
            ) by {
                assert(done_with(search, pos));
                assert(closed_around(search, pos));
            }
            assert forall|pos: TilePos|
                grid.contains(pos) && ready.visited.contains(pos) && !ready.queued(
                    pos,
                ) implies #[trigger] in_box(origin, goal, pos) by {
                if pos != from {
                    assert(!search.queued(pos));
                }
            }
            assert(!done_with(ready, goal));
            assert forall|i: int| 0 <= i < rest.len() implies (#[trigger] rest[i]).distance
                == euclid(rest[i].pos, goal) by {
                assert(rest[i] == search.frontier[if i < index { i } else { i + 1 }]);
            }
            assert(homing_in(ready, grid, origin, goal, from, rest));
            lemma_expand_homing_in(ready, grid, origin, goal, from, rest, 4);
            lemma_expand_inv(ready, grid, from, 4);
            let (grown, painted) = ready.expand(grid, from, 4);
            let after = SearchView { steps: grown.steps + 1, ..grown };
            let marked = settled(painted, from);
            assert((after, marked) == search.step(grid, seed, chance));
            lemma_same_frontier(after, grown);
            assert(grown.visited.contains(from.adjacent()[0]));
            assert(grown.visited.contains(from.adjacent()[1]));
            assert(grown.visited.contains(from.adjacent()[2]));
            assert(grown.visited.contains(from.adjacent()[3]));
            assert(closed_around(after, from));
            assert forall|pos: TilePos|
                marked.contains(pos) && done_with(after, pos) implies #[trigger] closed_around(
                after,
                pos,
            ) by {
                assert(done_with(grown, pos));
                if pos != from {
                    assert(closed_around(grown, pos));
                }
            }
            assert forall|pos: TilePos|
                marked.contains(pos) && after.visited.contains(pos) && !after.queued(
                    pos,
                ) implies #[trigger] in_box(origin, goal, pos) by {
                assert(painted.contains(pos));
                assert(!grown.queued(pos));
            }
            assert forall|pos: TilePos| marked.contains(pos) implies marked.tiles[pos]
                != TileState::Wall by {
                assert(painted.contains(pos));
            }
            assert(after.fits(marked));
            assert(measured(after, goal));
            let reach = euclid(from, goal);
            let below = lemma_reaches_below(after, marked, origin, goal, from);
            lemma_one_goal(after.frontier[below].pos, goal);
            lemma_one_goal(from, goal);
            lemma_floor_sqrt_monotonic(square(after.frontier[below].pos, goal), square(from, goal));
            assert(after.frontier[below].distance <= reach);
            assert forall|i: int|
                0 <= i < after.frontier.len() && !in_box(
                    origin,
                    goal,
                    (#[trigger] after.frontier[i]).pos,
                ) implies beaten(after, origin, goal, after.frontier[i].distance as int) by {
                let out = after.frontier[i];
                if i < rest.len() {
                    assert(out == rest[i]);
                    let old = if i < index { i } else { i + 1 };
                    assert(out == search.frontier[old]);
                    assert(beaten(search, origin, goal, out.distance as int));
                    let j = choose|j: int|
                        0 <= j < search.frontier.len() && in_box(
                            origin,
                            goal,
                            (#[trigger] search.frontier[j]).pos,
                        ) && search.frontier[j].distance < out.distance;
                    if j == index {
                        assert(tile.distance == reach);
                        assert(in_box(origin, goal, after.frontier[below].pos));
                    } else {
                        let new = if j < index { j } else { j - 1 };
                        assert(rest[new] == search.frontier[j]);
                        assert(after.frontier[new] == rest[new]);
                        assert(in_box(origin, goal, after.frontier[new].pos));
                    }
                } else {
                    assert(beside(from, out.pos));
                    let along = lemma_outward(origin, goal, from, out.pos);
                    lemma_one_goal(out.pos, goal);
                    assert(out.distance == euclid(out.pos, goal));
                    if out.distance > reach {
                        assert(in_box(origin, goal, after.frontier[below].pos));
                    } else {
                        let a = span(from.x, goal.x);
                        let b = span(from.y, goal.y);
                        assert(a + b > 0);
                        lemma_plateau_breaks(a, b, along);
                        lemma_homeward(marked, origin, goal, from);
                        let near = homeward(goal, from);
                        lemma_one_goal(near, goal);
                        assert(square(near, goal) == (a * a + b * b + 1 - 2 * (if a >= b {
                            a
                        } else {
                            b
                        })) as nat);
                        assert(euclid(near, goal) < reach);
                        assert(after.visited.contains(near));
                        if after.queued(near) {
                            let q = choose|q: int|
                                0 <= q < after.frontier.len() && (#[trigger] after.frontier[q]).pos
                                    == near;
                            assert(in_box(origin, goal, after.frontier[q].pos));
                            assert(after.frontier[q].distance < out.distance);
                        } else {
                            let q = lemma_reaches_below(after, marked, origin, goal, near);
                            lemma_one_goal(after.frontier[q].pos, goal);
                            lemma_floor_sqrt_monotonic(
                                square(after.frontier[q].pos, goal),
                                square(near, goal),
                            );
                            assert(in_box(origin, goal, after.frontier[q].pos));
                            assert(after.frontier[q].distance < out.distance);
                        }
                    }
                }
            }
            assert(homing(after, marked, origin, goal));
        }
    }
}

} // verus!
