//! What a carved maze looks like, tile by tile.
//!
//! In the carving every tile writes in its turn, and where two write to the
//! same tile the later one has its way. This says what stands on each tile
//! in the end.

use vstd::prelude::*;
use crate::position::TilePos;
use crate::grid::{GridView, TileState};

verus! {

/// The four directions in which a passage can lead out of a field.
#[derive(Clone, Copy, Debug, PartialEq, Eq, Structural)]
pub enum Direction {
    North,
    East,
    South,
    West,
}

impl Direction {
    /// The place of the direction among the four.
    pub open spec fn index(self) -> int {
        match self {
            Direction::North => 0,
            Direction::East => 1,
            Direction::South => 2,
            Direction::West => 3,
        }
    }
}

/// What stands where a passage is, and where none is.
pub open spec fn door(open: bool) -> TileState {
    if open {
        TileState::Empty
    } else {
        TileState::Wall
    }
}

/// The grid after the tile at `pos` has had its turn in the carving of a
/// maze with `passages`.
///
/// A tile in an odd column and an odd row becomes a wall. A tile in an even
/// column and an even row stands for the field at half its coordinates: the
/// tiles next to it, in the order `+x`, `-x`, `+y`, `-y`, are made empty or
/// a wall by whether the field has a passage to the north, south, east and
/// west. Other tiles do nothing in their turn.
pub open spec fn carve_at(grid: GridView, passages: Map<(int, int), Seq<bool>>, pos: TilePos) -> GridView {
    if pos.x % 2 == 1 && pos.y % 2 == 1 {
        grid.with(pos, TileState::Wall)
    } else if pos.x % 2 == 0 && pos.y % 2 == 0 {
        let field = passages[((pos.x / 2) as int, (pos.y / 2) as int)];
        grid.with(pos.right(), door(field[Direction::North.index()])).with(
            pos.left(),
            door(field[Direction::South.index()]),
        ).with(pos.up(), door(field[Direction::East.index()])).with(
            pos.down(),
            door(field[Direction::West.index()]),
        )
    } else {
        grid
    }
}

/// The grid after the first `rows` tiles of the column `x` have had their
/// turn.
pub open spec fn carved_column(
    grid: GridView,
    passages: Map<(int, int), Seq<bool>>,
    x: u32,
    rows: nat,
) -> GridView
    decreases rows,
{
    if rows == 0 || rows > u32::MAX {
        grid
    } else {
        carve_at(
            carved_column(grid, passages, x, (rows - 1) as nat),
            passages,
            TilePos { x, y: (rows - 1) as u32 },
        )
    }
}

/// The grid after every tile of the first `columns` columns has had its
/// turn, column by column and in each from row 0 up.
pub open spec fn carved(grid: GridView, passages: Map<(int, int), Seq<bool>>, columns: nat) -> GridView
    decreases columns,
{
    if columns == 0 || columns > u32::MAX {
        grid
    } else {
        carved_column(
            carved(grid, passages, (columns - 1) as nat),
            passages,
            (columns - 1) as u32,
            grid.height as nat,
        )
    }
}

/// A tile's turn leaves the grid its size.
pub proof fn lemma_carve_keeps_size(grid: GridView, passages: Map<(int, int), Seq<bool>>, pos: TilePos)
    requires
        grid.wf(),
    ensures
        carve_at(grid, passages, pos).wf(),
        carve_at(grid, passages, pos).width == grid.width,
        carve_at(grid, passages, pos).height == grid.height,
{
}


/// What stands where the field under the tile at `pos` has a passage in
/// `direction`, or has none.
pub open spec fn gate(
    passages: Map<(int, int), Seq<bool>>,
    pos: TilePos,
    direction: Direction,
) -> TileState {
    door(passages[((pos.x / 2) as int, (pos.y / 2) as int)][direction.index()])
}

/// The tile at `pos` has had its turn when the first `rows` tiles of the
/// column `columns` have had theirs, and all the columns before it.
pub open spec fn had_turn(pos: TilePos, columns: nat, rows: nat) -> bool {
    pos.x < columns || (pos.x == columns && pos.y < rows)
}

/// What stands on the tile at `pos` when the first `rows` tiles of the
/// column `columns` have had their turn, and all the columns before it.
pub open spec fn carved_so_far(
    grid: GridView,
    passages: Map<(int, int), Seq<bool>>,
    pos: TilePos,
    columns: nat,
    rows: nat,
) -> TileState {
    let even_column = pos.x % 2 == 0;
    let even_row = pos.y % 2 == 0;
    if !even_column && !even_row {
        if had_turn(pos, columns, rows) {
            TileState::Wall
        } else {
            grid.tiles[pos]
        }
    } else if !even_column {
        if grid.contains(pos.right()) && had_turn(pos.right(), columns, rows) {
            gate(passages, pos.right(), Direction::South)
        } else if had_turn(pos.left(), columns, rows) {
            gate(passages, pos.left(), Direction::North)
        } else {
            grid.tiles[pos]
        }
    } else if !even_row {
        if grid.contains(pos.up()) && had_turn(pos.up(), columns, rows) {
            gate(passages, pos.up(), Direction::West)
        } else if had_turn(pos.down(), columns, rows) {
            gate(passages, pos.down(), Direction::East)
        } else {
            grid.tiles[pos]
        }
    } else {
        if !had_turn(pos, columns, rows) {
            grid.tiles[pos]
        } else if pos.y == 0 {
            gate(passages, pos, Direction::West)
        } else if pos.x == 0 {
            gate(passages, pos, Direction::South)
        } else {
            grid.tiles[pos]
        }
    }
}

/// What stands on the tile at `pos` of a carved maze.
///
/// A tile in an odd column and an odd row is a wall. A tile in an even
/// column and an even row stands for a field and is left as it was, but in
/// row 0, where it is open or a wall by the passage of its field to the
/// west, and in column 0, where it goes by the passage to the south. A tile
/// between two fields of a row goes by the passage to the south of the
/// field in the next column, or, in the last column, by the passage to the
/// north of the field before it. A tile between two fields of a column goes
/// by the passage to the west of the field in the next row, or, in the last
/// row, by the passage to the east of the field before it.
pub open spec fn maze_tile(grid: GridView, passages: Map<(int, int), Seq<bool>>, pos: TilePos) -> TileState {
    let even_column = pos.x % 2 == 0;
    let even_row = pos.y % 2 == 0;
    if !even_column && !even_row {
        TileState::Wall
    } else if !even_column {
        if grid.contains(pos.right()) {
            gate(passages, pos.right(), Direction::South)
        } else {
            gate(passages, pos.left(), Direction::North)
        }
    } else if !even_row {
        if grid.contains(pos.up()) {
            gate(passages, pos.up(), Direction::West)
        } else {
            gate(passages, pos.down(), Direction::East)
        }
    } else if pos.y == 0 {
        gate(passages, pos, Direction::West)
    } else if pos.x == 0 {
        gate(passages, pos, Direction::South)
    } else {
        grid.tiles[pos]
    }
}

/// The turn of one tile brings every tile from what it was so far to what
/// it is with that turn counted.
proof fn lemma_turn(
    grid: GridView,
    passages: Map<(int, int), Seq<bool>>,
    painted: GridView,
    at: TilePos,
    pos: TilePos,
)
    requires
        grid.wf(),
        painted.wf(),
        painted.width == grid.width,
        painted.height == grid.height,
        grid.contains(at),
        grid.contains(pos),
        painted.tiles[pos] == carved_so_far(grid, passages, pos, at.x as nat, at.y as nat),
    ensures
        carve_at(painted, passages, at).tiles[pos] == carved_so_far(
            grid,
            passages,
            pos,
            at.x as nat,
            (at.y + 1) as nat,
        ),
{
    assert(forall|other: TilePos|
        had_turn(other, at.x as nat, (at.y + 1) as nat) <==> had_turn(
            other,
            at.x as nat,
            at.y as nat,
        ) || other == at);
    if at.x % 2 == 0 && at.y % 2 == 0 {
        let first = painted.with(at.right(), gate(passages, at, Direction::North));
        let second = first.with(at.left(), gate(passages, at, Direction::South));
        let third = second.with(at.up(), gate(passages, at, Direction::East));
        let fourth = third.with(at.down(), gate(passages, at, Direction::West));
        assert(carve_at(painted, passages, at) == fourth);
    }
}

/// When the first `rows` tiles of a column have had their turn, every tile
/// is what [`carved_so_far`] says.
proof fn lemma_column(
    grid: GridView,
    passages: Map<(int, int), Seq<bool>>,
    painted: GridView,
    x: u32,
    rows: nat,
)
    requires
        grid.wf(),
        painted.wf(),
        painted.width == grid.width,
        painted.height == grid.height,
        x < grid.width,
        rows <= grid.height,
        forall|pos: TilePos|
            grid.contains(pos) ==> #[trigger] painted.tiles[pos] == carved_so_far(
                grid,
                passages,
                pos,
                x as nat,
                0,
            ),
    ensures
        carved_column(painted, passages, x, rows).wf(),
        carved_column(painted, passages, x, rows).width == grid.width,
        carved_column(painted, passages, x, rows).height == grid.height,
        forall|pos: TilePos|
            grid.contains(pos) ==> #[trigger] carved_column(painted, passages, x, rows).tiles[pos]
                == carved_so_far(grid, passages, pos, x as nat, rows),
    decreases rows,
{
    if rows > 0 {
        lemma_column(grid, passages, painted, x, (rows - 1) as nat);
        let before = carved_column(painted, passages, x, (rows - 1) as nat);
        let at = TilePos { x, y: (rows - 1) as u32 };
        lemma_carve_keeps_size(before, passages, at);
        assert forall|pos: TilePos| grid.contains(pos) implies #[trigger] carved_column(
            painted,
            passages,
            x,
            rows,
        ).tiles[pos] == carved_so_far(grid, passages, pos, x as nat, rows) by {
            lemma_turn(grid, passages, before, at, pos);
        }
    }
}

/// When the first `columns` columns have had their turn, every tile is what
/// [`carved_so_far`] says.
proof fn lemma_columns(grid: GridView, passages: Map<(int, int), Seq<bool>>, columns: nat)
    requires
        grid.wf(),
        columns <= grid.width,
    ensures
        carved(grid, passages, columns).wf(),
        carved(grid, passages, columns).width == grid.width,
        carved(grid, passages, columns).height == grid.height,
        forall|pos: TilePos|
            grid.contains(pos) ==> #[trigger] carved(grid, passages, columns).tiles[pos]
                == carved_so_far(grid, passages, pos, columns, 0),
    decreases columns,
{
    if columns > 0 {
        lemma_columns(grid, passages, (columns - 1) as nat);
        let before = carved(grid, passages, (columns - 1) as nat);
        let x = (columns - 1) as u32;
        lemma_column(grid, passages, before, x, grid.height as nat);
        assert forall|pos: TilePos| grid.contains(pos) implies #[trigger] carved(
            grid,
            passages,
            columns,
        ).tiles[pos] == carved_so_far(grid, passages, pos, columns, 0) by {
            assert(forall|other: TilePos|
                other.y < grid.height ==> (had_turn(other, x as nat, grid.height as nat)
                    <==> had_turn(other, columns, 0)));
        }
    }
}

/// Every tile of a carved maze is what [`maze_tile`] says, whatever stood
/// on the grid before, but for the tiles that stand for a field and lie
/// neither in row 0 nor in column 0: those are left as they were.
pub proof fn lemma_carved_maze(grid: GridView, passages: Map<(int, int), Seq<bool>>, pos: TilePos)
    requires
        grid.wf(),
        grid.contains(pos),
    ensures
        carved(grid, passages, grid.width as nat).wf(),
        carved(grid, passages, grid.width as nat).width == grid.width,
        carved(grid, passages, grid.width as nat).height == grid.height,
        carved(grid, passages, grid.width as nat).tiles[pos] == maze_tile(grid, passages, pos),
{
    lemma_columns(grid, passages, grid.width as nat);
}

} // verus!
