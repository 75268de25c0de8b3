//! Ways to fill a grid: all of one state, wiped of a search's trail, or
//! carved into a maze.

use vstd::prelude::*;
use maze_generator::prelude::{Coordinates, Field, Generator, Maze};
use maze_generator::recursive_backtracking::RbGenerator;
use crate::position::TilePos;
use crate::grid::{Grid, GridView, TileState};
use crate::pathfinder::Pathfinder;
use crate::carving::{
    carve_at, carved, carved_column, lemma_carve_keeps_size, lemma_carved_maze, maze_tile,
    Direction,
};

verus! {

/// The type `maze_generator::prelude::Maze`. Nothing of its inside is known
/// here; what it holds goes by the names [`maze_size`] and
/// [`maze_passages`].
#[verifier::external_type_specification]
#[verifier::external_body]
pub struct ExMaze(Maze);

/// The type `maze_generator::prelude::Field`. Nothing of its inside is
/// known here; what it holds goes by the name [`field_passages`].
#[verifier::external_type_specification]
#[verifier::external_body]
pub struct ExField(Field);

/// The width and the height that a maze was made with: its field `size`.
pub uninterp spec fn maze_size(maze: Maze) -> (int, int);

/// For each field of a maze, by its coordinates, whether a passage leads
/// out of it to the north, the east, the south and the west, in this order:
/// what `Maze::get_field` and `Field::has_passage` tell of the maze.
pub uninterp spec fn maze_passages(maze: Maze) -> Map<(int, int), Seq<bool>>;

/// Whether a passage leads out of a field to the north, the east, the south
/// and the west, in this order: what `Field::has_passage` tells of the field.
pub uninterp spec fn field_passages(field: Field) -> Seq<bool>;

/// The field at `x`, `y` lies inside a maze of the size `size`.
pub open spec fn inside(size: (int, int), x: int, y: int) -> bool {
    0 <= x < size.0 && 0 <= y < size.1
}

/// The longest side of a maze that [`generate_maze`] asks for. The
/// generator calls itself once more for each field it carves, so the size
/// of a maze is held to what any stack takes.
pub const MAX_MAZE_SIDE: u32 = 64;

/// Makes a random maze of `width` by `height` fields.
///
/// The body makes a generator with `RbGenerator::new(None)`, which seeds
/// itself from the system, and calls `Generator::generate` on it. That
/// returns a maze whose `size` is what was asked for; the contract says so
/// and leaves open which passages the maze has, and whether one is returned
/// at all. A side of zero or less is left out, since the crate asserts
/// against it, and so is a side beyond [`MAX_MAZE_SIDE`], since the
/// generator calls itself once more for each field.
#[verifier::external_body]
fn random_maze(width: i32, height: i32) -> (made: Option<Maze>)
    requires
        0 < width <= MAX_MAZE_SIDE,
        0 < height <= MAX_MAZE_SIDE,
    ensures
        (made matches Some(maze) ==> maze_size(maze) == (width as int, height as int)),
{
    match RbGenerator::new(None).generate(width, height) {
        Ok(maze) => Some(maze),
        Err(_) => None,
    }
}

/// The field of `maze` at `x`, `y`.
///
/// The body calls `Maze::get_field` with `Coordinates::new(x, y)`. That
/// returns a field exactly for the coordinates that lie inside the size of
/// the maze, with the passages that the maze has there.
#[verifier::external_body]
fn field_at(maze: &Maze, x: i32, y: i32) -> (found: Option<Field>)
    ensures
        found is Some == inside(maze_size(*maze), x as int, y as int),
        (found matches Some(field) ==> field_passages(field) == maze_passages(*maze)[(x as int, y as int)]),
{
    maze.get_field(&Coordinates::new(x, y))
}

/// Whether a passage leads out of `field` in `direction`.
///
/// The body calls `Field::has_passage` with the direction of the same name
/// of `maze_generator`, which looks it up among the passages of the field.
#[verifier::external_body]
fn has_passage(field: &Field, direction: Direction) -> (open: bool)
    ensures
        open == field_passages(*field)[direction.index()],
{
    field.has_passage(
        &match direction {
            Direction::North => maze_generator::prelude::Direction::North,
            Direction::East => maze_generator::prelude::Direction::East,
            Direction::South => maze_generator::prelude::Direction::South,
            Direction::West => maze_generator::prelude::Direction::West,
        },
    )
}

/// Wipes the trail of a search from the grid and the parent links from the
/// search.
pub fn flush_path(grid: &mut Grid, pathfinder: &mut Pathfinder)
    requires
        old(grid).wf(),
        old(pathfinder).wf(),
    ensures
        final(grid).wf(),
        final(pathfinder).wf(),
        final(grid)@ == old(grid)@.flushed(),
        final(pathfinder)@ == old(pathfinder)@.unlinked(),
{
    grid.flush();
    pathfinder.forget_parents();
}

/// Puts every tile of the grid in the state `fill`.
pub fn generate_flat(grid: &mut Grid, fill: TileState)
    requires
        old(grid).wf(),
    ensures
        final(grid).wf(),
        final(grid)@ == old(grid)@.filled(fill),
{
    grid.fill(fill);
}

/// Gives the tile at `pos` its turn in the carving of `maze`.
fn carve_tile(grid: &mut Grid, maze: &Maze, pos: TilePos)
    requires
        old(grid).wf(),
        old(grid)@.contains(pos),
        old(grid)@.width <= 2 * maze_size(*maze).0,
        old(grid)@.height <= 2 * maze_size(*maze).1,
    ensures
        final(grid).wf(),
        final(grid)@ == carve_at(old(grid)@, maze_passages(*maze), pos),
{
    let even_column = pos.x % 2 == 0;
    let even_row = pos.y % 2 == 0;
    if !even_column && !even_row {
        grid.set(pos, TileState::Wall);
    } else if even_column && even_row {
        let column: i32 = (pos.x / 2) as i32;
        let row: i32 = (pos.y / 2) as i32;
        match field_at(maze, column, row) {
            Some(field) => {
                let around = pos.neighbors();
                let north = has_passage(&field, Direction::North);
                let south = has_passage(&field, Direction::South);
                let east = has_passage(&field, Direction::East);
                let west = has_passage(&field, Direction::West);
                grid.set(around[0], if north { TileState::Empty } else { TileState::Wall });
                grid.set(around[1], if south { TileState::Empty } else { TileState::Wall });
                grid.set(around[2], if east { TileState::Empty } else { TileState::Wall });
                grid.set(around[3], if west { TileState::Empty } else { TileState::Wall });
            },
            None => {
                assert(false);
            },
        }
    }
}

/// Carves `maze` into the grid, which has to be no larger than the maze
/// covers: two tiles a side for each field.
///
/// Every tile has its turn, column by column and in each from row 0 up, and
/// does in it what [`carve_at`] says.
pub fn carve_maze(grid: &mut Grid, maze: &Maze)
    requires
        old(grid).wf(),
        old(grid)@.width <= 2 * maze_size(*maze).0,
        old(grid)@.height <= 2 * maze_size(*maze).1,
    ensures
        final(grid).wf(),
        final(grid)@ == carved(old(grid)@, maze_passages(*maze), old(grid)@.width as nat),
        final(grid)@.width == old(grid)@.width,
        final(grid)@.height == old(grid)@.height,
        forall|pos: TilePos|
            old(grid)@.contains(pos) ==> #[trigger] final(grid)@.tiles[pos] == maze_tile(
                old(grid)@,
                maze_passages(*maze),
                pos,
            ),
{
    let width = grid.width();
    let height = grid.height();
    let ghost start = grid@;
    let ghost passages = maze_passages(*maze);
    let mut x: u32 = 0;
    proof {
        grid.lemma_view_wf();
    }
    while x < width
        invariant
            x <= width,
            grid.wf(),
            start.wf(),
            grid@.width == width,
            grid@.height == height,
            start.width == width,
            start.height == height,
            width <= 2 * maze_size(*maze).0,
            height <= 2 * maze_size(*maze).1,
            passages == maze_passages(*maze),
            grid@ == carved(start, passages, x as nat),
        decreases width - x,
    {
        let ghost column = grid@;
        let mut y: u32 = 0;
        while y < height
            invariant
                x < width,
                y <= height,
                grid.wf(),
                grid@.width == width,
                grid@.height == height,
                width <= 2 * maze_size(*maze).0,
                height <= 2 * maze_size(*maze).1,
                passages == maze_passages(*maze),
                grid@ == carved_column(column, passages, x, y as nat),
            decreases height - y,
        {
            proof {
                grid.lemma_view_wf();
                lemma_carve_keeps_size(grid@, passages, TilePos { x, y });
            }
            carve_tile(grid, maze, TilePos { x, y });
            y += 1;
        }
        x += 1;
    }
    proof {
        assert forall|pos: TilePos| start.contains(pos) implies #[trigger] grid@.tiles[pos]
            == maze_tile(start, passages, pos) by {
            lemma_carved_maze(start, passages, pos);
        }
    }
}

/// Makes the grid a random maze.
///
/// The grid is emptied first. If its sides are between 1 and twice
/// [`MAX_MAZE_SIDE`] tiles long, a maze of half its size is asked for and,
/// if one comes, carved into it by [`carve_maze`]. The result says whether
/// that was done; where it was not, the grid is left empty.
pub fn generate_maze(grid: &mut Grid) -> (made: bool)
    requires
        old(grid).wf(),
    ensures
        final(grid).wf(),
        made ==> 0 < old(grid)@.width <= 2 * MAX_MAZE_SIDE && 0 < old(grid)@.height <= 2
            * MAX_MAZE_SIDE,
        final(grid)@.width == old(grid)@.width,
        final(grid)@.height == old(grid)@.height,
        made ==> exists|maze: Maze|
            {
                &&& maze_size(maze) == ((old(grid)@.width + 1) / 2, (old(grid)@.height + 1) / 2)
                &&& final(grid)@ == #[trigger] carved(
                    old(grid)@.filled(TileState::Empty),
                    maze_passages(maze),
                    old(grid)@.width as nat,
                )
                &&& forall|pos: TilePos|
                    old(grid)@.contains(pos) ==> #[trigger] final(grid)@.tiles[pos] == maze_tile(
                        old(grid)@.filled(TileState::Empty),
                        maze_passages(maze),
                        pos,
                    )
            },
        !made ==> final(grid)@ == old(grid)@.filled(TileState::Empty),
{
    generate_flat(grid, TileState::Empty);
    let width = grid.width();
    let height = grid.height();
    if width == 0 || height == 0 || width > 2 * MAX_MAZE_SIDE || height > 2 * MAX_MAZE_SIDE {
        return false;
    }
    let columns: i32 = ((width + 1) / 2) as i32;
    let rows: i32 = ((height + 1) / 2) as i32;
    match random_maze(columns, rows) {
        Some(maze) => {
            carve_maze(grid, &maze);
            true
        },
        None => false,
    }
}

} // verus!
