//! Every operation keeps what [`SearchView::inv`] says, and a search that
//! fits its grid before a step fits it after.

use vstd::prelude::*;
use crate::position::TilePos;
use crate::tile::Tile;
use crate::grid::{GridView, TileState};
use crate::algorithm::{
    lemma_first_farthest_exists, lemma_first_nearest_exists, next_index, take_next,
    AlgorithmOption,
};
use crate::search::{settled, traced, without, SearchView};

verus! {

/// The index that a frontier takes next is one of its indices.
pub proof fn lemma_next_index_in_range(
    option: AlgorithmOption,
    queue: Seq<Tile>,
    chance: Option<int>,
)
    ensures
        next_index(option, queue, chance) matches Some(index) ==> 0 <= index < queue.len(),
        option != AlgorithmOption::Random ==> (next_index(option, queue, chance) is None
            <==> queue.len() == 0),
{
    if queue.len() > 0 {
        let nearest = lemma_first_nearest_exists(queue);
        let farthest = lemma_first_farthest_exists(queue);
    }
}

/// Taking a coordinate out of a list without duplicates leaves a list
/// without duplicates that holds the others and not that one.
pub proof fn lemma_without(tiles: Seq<TilePos>, pos: TilePos)
    requires
        tiles.no_duplicates(),
    ensures
        without(tiles, pos).no_duplicates(),
        !without(tiles, pos).contains(pos),
        forall|other: TilePos|
            other != pos ==> (#[trigger] without(tiles, pos).contains(other) <==> tiles.contains(
                other,
            )),
{
    let rest = without(tiles, pos);
    if tiles.contains(pos) {
        let index = tiles.index_of(pos);
        assert forall|i: int, j: int| 0 <= i < rest.len() && 0 <= j < rest.len() && i != j implies rest[i]
            != rest[j] by {
            let bi = if i < index { i } else { i + 1 };
            let bj = if j < index { j } else { j + 1 };
            assert(tiles[bi] != tiles[bj]);
        }
        if rest.contains(pos) {
            let j = choose|j: int| 0 <= j < rest.len() && rest[j] == pos;
            assert(tiles[if j < index { j } else { j + 1 }] == pos);
        }
        assert forall|other: TilePos| other != pos implies (#[trigger] rest.contains(other)
            <==> tiles.contains(other)) by {
            if rest.contains(other) {
                let j = choose|j: int| 0 <= j < rest.len() && rest[j] == other;
                assert(tiles[if j < index { j } else { j + 1 }] == other);
            }
            if tiles.contains(other) {
                let j = choose|j: int| 0 <= j < tiles.len() && tiles[j] == other;
                assert(rest[if j < index { j } else { j - 1 }] == other);
            }
        }
    }
}

/// Two searches with the same frontier have the same coordinates waiting.
pub proof fn lemma_same_frontier(a: SearchView, b: SearchView)
    requires
        a.frontier == b.frontier,
    ensures
        forall|pos: TilePos| a.queued(pos) == b.queued(pos),
{
    assert forall|pos: TilePos| a.queued(pos) == b.queued(pos) by {
        if a.queued(pos) {
            let i = choose|i: int| 0 <= i < a.frontier.len() && (#[trigger] a.frontier[i]).pos == pos;
            assert(b.frontier[i].pos == pos);
        }
        if b.queued(pos) {
            let i = choose|i: int| 0 <= i < b.frontier.len() && (#[trigger] b.frontier[i]).pos == pos;
            assert(a.frontier[i].pos == pos);
        }
    }
}

/// A restart and a stop leave a search that keeps the invariant.
pub proof fn lemma_restarted_inv(search: SearchView, option: AlgorithmOption)
    requires
        search.starts.no_duplicates(),
        search.goals.no_duplicates(),
    ensures
        search.restarted(option).inv(),
        search.stopped(option).inv(),
{
}

/// Forgetting the parent links keeps the invariant.
pub proof fn lemma_unlinked_inv(search: SearchView)
    requires
        search.inv(),
    ensures
        search.unlinked().inv(),
{
}

/// Hearing of a change keeps the invariant. After it, `pos` is a start
/// exactly if the new state is `Start` and a goal exactly if it is `Goal`,
/// and every other coordinate is what it was.
pub proof fn lemma_notified_inv(search: SearchView, pos: TilePos, state: TileState)
    requires
        search.inv(),
    ensures
        search.notified(pos, state).inv(),
        search.notified(pos, state).starts.contains(pos) <==> state == TileState::Start,
        search.notified(pos, state).goals.contains(pos) <==> state == TileState::Goal,
        forall|other: TilePos|
            other != pos ==> (#[trigger] search.notified(pos, state).starts.contains(other)
                <==> search.starts.contains(other)),
        forall|other: TilePos|
            other != pos ==> (#[trigger] search.notified(pos, state).goals.contains(other)
                <==> search.goals.contains(other)),
{
    lemma_without(search.starts, pos);
    lemma_without(search.goals, pos);
    let after = search.notified(pos, state);
    let starts = without(search.starts, pos);
    let goals = without(search.goals, pos);
    if state == TileState::Start {
        assert(after.starts == starts.push(pos));
        assert(after.starts[starts.len() as int] == pos);
        assert forall|i: int, j: int|
            0 <= i < after.starts.len() && 0 <= j < after.starts.len() && i != j implies after.starts[i]
            != after.starts[j] by {
            if i < starts.len() {
                assert(starts.contains(starts[i]));
            }
            if j < starts.len() {
                assert(starts.contains(starts[j]));
            }
        }
        assert forall|other: TilePos| other != pos implies (#[trigger] after.starts.contains(other)
            <==> search.starts.contains(other)) by {
            if after.starts.contains(other) {
                let j = choose|j: int| 0 <= j < after.starts.len() && after.starts[j] == other;
                assert(starts[j] == other);
                assert(starts.contains(other));
            }
            if search.starts.contains(other) {
                assert(starts.contains(other));
                let j = choose|j: int| 0 <= j < starts.len() && starts[j] == other;
                assert(after.starts[j] == other);
            }
        }
    }
    if state == TileState::Goal {
        assert(after.goals == goals.push(pos));
        assert(after.goals[goals.len() as int] == pos);
        assert forall|i: int, j: int|
            0 <= i < after.goals.len() && 0 <= j < after.goals.len() && i != j implies after.goals[i]
            != after.goals[j] by {
            if i < goals.len() {
                assert(goals.contains(goals[i]));
            }
            if j < goals.len() {
                assert(goals.contains(goals[j]));
            }
        }
        assert forall|other: TilePos| other != pos implies (#[trigger] after.goals.contains(other)
            <==> search.goals.contains(other)) by {
            if after.goals.contains(other) {
                let j = choose|j: int| 0 <= j < after.goals.len() && after.goals[j] == other;
                assert(goals[j] == other);
                assert(goals.contains(other));
            }
            if search.goals.contains(other) {
                assert(goals.contains(other));
                let j = choose|j: int| 0 <= j < goals.len() && goals[j] == other;
                assert(after.goals[j] == other);
            }
        }
    }
}

/// Seeding keeps the invariant.
pub proof fn lemma_seeded_keeps_inv(search: SearchView, seed: Option<int>)
    requires
        search.inv(),
    ensures
        search.seeded(seed).inv(),
{
    lemma_seeded_inv(search, GridView::uniform(0, 0, TileState::Empty), seed);
}

/// Seeding keeps the invariant and the fit.
pub proof fn lemma_seeded_inv(search: SearchView, grid: GridView, seed: Option<int>)
    requires
        search.inv(),
    ensures
        search.seeded(seed).inv(),
        search.fits(grid) ==> search.seeded(seed).fits(grid),
{
    let after = search.seeded(seed);
    if after != search {
        let index = seed->0;
        let pos = search.starts[index];
        assert(search.visited =~= Set::<TilePos>::empty());
        assert(search.frontier.len() == 0) by {
            if search.frontier.len() > 0 {
                assert(search.visited.contains(search.frontier[0].pos));
            }
        }
        assert forall|other: TilePos| #[trigger] after.parents.contains_key(other) implies false by {
            assert(search.visited.contains(other));
        }
    }
}

/// Taking the next tile out of the frontier keeps the invariant and the fit.
/// The tile that was taken lies at a coordinate that was seen, and no tile
/// at that coordinate is left in the frontier.
pub proof fn lemma_taken_inv(search: SearchView, grid: GridView, chance: Option<int>)
    requires
        search.inv(),
    ensures
        ({
            let (taken, rest) = take_next(search.option, search.frontier, chance);
            let after = SearchView { frontier: rest, ..search };
            &&& after.inv()
            &&& search.fits(grid) ==> after.fits(grid)
            &&& taken matches Some(tile) ==> {
                &&& search.visited.contains(tile.pos)
                &&& !after.queued(tile.pos)
                &&& search.queued(tile.pos)
                &&& search.fits(grid) ==> grid.contains(tile.pos)
            }
        }),
{
    lemma_next_index_in_range(search.option, search.frontier, chance);
    let (taken, rest) = take_next(search.option, search.frontier, chance);
    let after = SearchView { frontier: rest, ..search };
    match next_index(search.option, search.frontier, chance) {
        Some(index) => {
            let tile = search.frontier[index];
            assert forall|i: int| 0 <= i < rest.len() implies #[trigger] rest[i]
                == search.frontier[if i < index { i } else { i + 1 }] by {}
            assert forall|i: int| 0 <= i < rest.len() implies after.visited.contains(
                (#[trigger] rest[i]).pos,
            ) by {
                assert(rest[i] == search.frontier[if i < index { i } else { i + 1 }]);
            }
            assert forall|i: int, j: int| 0 <= i < j < rest.len() implies (#[trigger] rest[i]).pos != (
            #[trigger] rest[j]).pos by {
                assert(rest[i] == search.frontier[if i < index { i } else { i + 1 }]);
                assert(rest[j] == search.frontier[if j < index { j } else { j + 1 }]);
            }
            if after.queued(tile.pos) {
                let i = choose|i: int| 0 <= i < rest.len() && (#[trigger] rest[i]).pos == tile.pos;
                let before = if i < index { i } else { i + 1 };
                assert(rest[i] == search.frontier[before]);
                if before < index {
                    assert(search.frontier[before].pos != search.frontier[index].pos);
                } else {
                    assert(search.frontier[index].pos != search.frontier[before].pos);
                }
            }
            if search.fits(grid) {
                assert forall|i: int| 0 <= i < rest.len() implies grid.contains(
                    (#[trigger] rest[i]).pos,
                ) by {
                    assert(rest[i] == search.frontier[if i < index { i } else { i + 1 }]);
                }
            }
        },
        None => {},
    }
}

/// Looking at one neighbour keeps the invariant and the fit, forgets no
/// coordinate that was seen, and leaves the grid its size.
pub proof fn lemma_visit_inv(search: SearchView, grid: GridView, from: TilePos, to: TilePos)
    requires
        search.inv(),
        grid.wf(),
        search.visited.contains(from),
    ensures
        ({
            let (after, marked) = search.visit(grid, from, to);
            &&& after.inv()
            &&& marked.wf()
            &&& marked.width == grid.width
            &&& marked.height == grid.height
            &&& search.fits(grid) ==> after.fits(marked)
            &&& after.visited.contains(to)
            &&& forall|pos: TilePos| search.visited.contains(pos) ==> after.visited.contains(pos)
            &&& forall|pos: TilePos| search.queued(pos) ==> after.queued(pos)
            &&& after.option == search.option
            &&& after.starts == search.starts
            &&& after.goals == search.goals
            &&& after.steps == search.steps
            &&& after.complete == search.complete
        }),
{
    let (after, marked) = search.visit(grid, from, to);
    assert forall|pos: TilePos| search.queued(pos) implies after.queued(pos) by {
        let i = choose|i: int| 0 <= i < search.frontier.len() && (#[trigger] search.frontier[i]).pos == pos;
        assert(after.frontier[i].pos == pos);
    }
    if !search.visited.contains(to) {
        assert forall|pos: TilePos| #[trigger] after.parents.contains_key(pos) implies {
            &&& after.visited.contains(pos)
            &&& after.visited.contains(after.parents[pos])
            &&& after.depth[after.parents[pos]] < after.depth[pos]
        } by {
            if pos != to {
                assert(search.parents.contains_key(pos));
            }
        }
        assert forall|i: int, j: int| 0 <= i < j < after.frontier.len() implies (
        #[trigger] after.frontier[i]).pos != (#[trigger] after.frontier[j]).pos by {
            if j < search.frontier.len() {
                assert(search.frontier[i].pos != search.frontier[j].pos);
            } else {
                assert(search.visited.contains(search.frontier[i].pos));
            }
        }
        assert forall|i: int| 0 <= i < after.frontier.len() implies after.visited.contains(
            (#[trigger] after.frontier[i]).pos,
        ) by {
            if i < search.frontier.len() {
                assert(search.visited.contains(search.frontier[i].pos));
            }
        }
        if search.fits(grid) {
            assert forall|i: int| 0 <= i < after.frontier.len() implies marked.contains(
                (#[trigger] after.frontier[i]).pos,
            ) by {
                if i < search.frontier.len() {
                    assert(grid.contains(search.frontier[i].pos));
                }
            }
        }
    }
}

/// Looking at the neighbours of a coordinate keeps the invariant and the
/// fit, forgets no coordinate that was seen, and leaves the grid its size.
pub proof fn lemma_expand_inv(search: SearchView, grid: GridView, from: TilePos, count: nat)
    requires
        search.inv(),
        grid.wf(),
        search.visited.contains(from),
    ensures
        ({
            let (after, marked) = search.expand(grid, from, count);
            &&& after.inv()
            &&& marked.wf()
            &&& marked.width == grid.width
            &&& marked.height == grid.height
            &&& search.fits(grid) ==> after.fits(marked)
            &&& forall|pos: TilePos| search.visited.contains(pos) ==> after.visited.contains(pos)
            &&& forall|pos: TilePos| search.queued(pos) ==> after.queued(pos)
            &&& after.option == search.option
            &&& after.starts == search.starts
            &&& after.goals == search.goals
            &&& after.steps == search.steps
            &&& after.complete == search.complete
        }),
    decreases count,
{
    if count == 0 || count > 4 {
    } else {
        lemma_expand_inv(search, grid, from, (count - 1) as nat);
        let (middle, painted) = search.expand(grid, from, (count - 1) as nat);
        lemma_visit_inv(middle, painted, from, from.adjacent()[count - 1]);
    }
}

/// Settling a tile and marking a path leave a well-formed grid of the same
/// size.
pub proof fn lemma_marks_keep_grid(grid: GridView, parents: Map<TilePos, TilePos>, pos: TilePos)
    requires
        grid.wf(),
    ensures
        settled(grid, pos).wf(),
        settled(grid, pos).width == grid.width,
        settled(grid, pos).height == grid.height,
        traced(grid, parents, pos).wf(),
        traced(grid, parents, pos).width == grid.width,
        traced(grid, parents, pos).height == grid.height,
{
}

/// Dealing with what the frontier handed out keeps the invariant and the
/// fit.
pub proof fn lemma_advanced_inv(search: SearchView, grid: GridView, taken: Option<Tile>)
    requires
        search.inv(),
        grid.wf(),
        taken matches Some(tile) ==> search.visited.contains(tile.pos),
    ensures
        ({
            let (after, marked) = search.advanced(grid, taken);
            &&& after.inv()
            &&& marked.wf()
            &&& marked.width == grid.width
            &&& marked.height == grid.height
            &&& search.fits(grid) ==> after.fits(marked)
        }),
{
    match taken {
        None => {},
        Some(tile) => {
            lemma_marks_keep_grid(grid, search.parents, tile.pos);
            if !search.goals.contains(tile.pos) {
                lemma_expand_inv(search, grid, tile.pos, 4);
                let (middle, painted) = search.expand(grid, tile.pos, 4);
                lemma_marks_keep_grid(painted, search.parents, tile.pos);
            }
        },
    }
}

/// A step keeps the invariant and the fit, and leaves the grid its size.
pub proof fn lemma_step_inv(
    search: SearchView,
    grid: GridView,
    seed: Option<int>,
    chance: Option<int>,
)
    requires
        search.inv(),
        grid.wf(),
    ensures
        search.step(grid, seed, chance).0.inv(),
        search.step(grid, seed, chance).1.wf(),
        search.step(grid, seed, chance).1.width == grid.width,
        search.step(grid, seed, chance).1.height == grid.height,
        search.fits(grid) ==> search.step(grid, seed, chance).0.fits(
            search.step(grid, seed, chance).1,
        ),
{
    if !search.complete {
        let seeded = search.seeded(seed);
        lemma_seeded_inv(search, grid, seed);
        lemma_taken_inv(seeded, grid, chance);
        let (taken, rest) = take_next(seeded.option, seeded.frontier, chance);
        lemma_advanced_inv(SearchView { frontier: rest, ..seeded }, grid, taken);
    }
}

} // verus!
