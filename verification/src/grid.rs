//! The grid of tiles that a search runs on.
//!
//! The grid belongs to its user, who paints walls, starts and goals on it.
//! A search reads it and records on it how far it has come: a tile that it
//! has queued, visited or found to lie on the path says so.

use vstd::prelude::*;
use crate::position::TilePos;

verus! {

/// What a tile is, or how far a search has come with it. The number that a
/// queued, visited or final tile carries is its distance to the nearest
/// goal, as it was when the tile was queued.
#[derive(Clone, Copy, Debug, PartialEq, Eq, Structural, Default)]
pub enum TileState {
    #[default]
    Empty,
    Wall,
    Start,
    Goal,
    Queued(u64),
    Visited(u64),
    Final(u64),
}

impl TileState {
    /// The state is one that a search writes.
    pub open spec fn is_trail(self) -> bool {
        self is Queued || self is Visited || self is Final
    }

    /// How far a search has come with the tile: 0 for a tile that it has not
    /// written, then 1, 2, 3 for queued, visited and final.
    pub open spec fn progress(self) -> nat {
        match self {
            TileState::Queued(_) => 1,
            TileState::Visited(_) => 2,
            TileState::Final(_) => 3,
            _ => 0,
        }
    }

    /// The state after a flush: what a search wrote is wiped.
    pub open spec fn flushed(self) -> TileState {
        if self.is_trail() {
            TileState::Empty
        } else {
            self
        }
    }

    /// Computes [`TileState::is_trail`].
    pub fn written_by_search(self) -> (trail: bool)
        ensures
            trail == self.is_trail(),
    {
        match self {
            TileState::Queued(_) | TileState::Visited(_) | TileState::Final(_) => true,
            _ => false,
        }
    }
}

/// A grid as contracts see it: its size and the state of each of its tiles.
#[verifier::ext_equal]
pub struct GridView {
    pub width: u32,
    pub height: u32,
    pub tiles: Map<TilePos, TileState>,
}

impl GridView {
    /// `pos` lies on the grid.
    pub open spec fn contains(self, pos: TilePos) -> bool {
        pos.x < self.width && pos.y < self.height
    }

    /// The grid has a state for the coordinates that lie on it and for no
    /// others.
    pub open spec fn wf(self) -> bool {
        forall|pos: TilePos|
            #![trigger self.tiles.dom().contains(pos)]
            #![trigger self.contains(pos)]
            self.tiles.dom().contains(pos) <==> self.contains(pos)
    }

    /// The state of the tile at `pos`, if `pos` lies on the grid.
    pub open spec fn state(self, pos: TilePos) -> Option<TileState> {
        if self.contains(pos) {
            Some(self.tiles[pos])
        } else {
            None
        }
    }

    /// The grid with the tile at `pos` in `state`; the same grid where `pos`
    /// lies outside.
    pub open spec fn with(self, pos: TilePos, state: TileState) -> GridView {
        if self.contains(pos) {
            GridView { tiles: self.tiles.insert(pos, state), ..self }
        } else {
            self
        }
    }

    /// The grid of `width` by `height` tiles, each in `state`.
    pub open spec fn uniform(width: u32, height: u32, state: TileState) -> GridView {
        GridView {
            width,
            height,
            tiles: Map::new(
                |pos: TilePos| pos.x < width && pos.y < height,
                |pos: TilePos| state,
            ),
        }
    }

    /// The grid with every tile in `state`.
    pub open spec fn filled(self, state: TileState) -> GridView {
        GridView::uniform(self.width, self.height, state)
    }

    /// The grid with the trail of a search wiped.
    pub open spec fn flushed(self) -> GridView {
        GridView {
            tiles: Map::new(
                |pos: TilePos| self.contains(pos),
                |pos: TilePos| self.tiles[pos].flushed(),
            ),
            ..self
        }
    }

    /// No tile is a wall.
    pub open spec fn open(self) -> bool {
        forall|pos: TilePos|
            #![trigger self.contains(pos)]
            #![trigger self.tiles[pos]]
            self.contains(pos) ==> self.tiles[pos] != TileState::Wall
    }
}

/// A rectangular grid of tiles, stored row by row.
#[derive(Debug)]
pub struct Grid {
    width: u32,
    height: u32,
    tiles: Vec<TileState>,
}

impl View for Grid {
    type V = GridView;

    closed spec fn view(&self) -> GridView {
        GridView {
            width: self.width,
            height: self.height,
            tiles: Map::new(
                |pos: TilePos| pos.x < self.width && pos.y < self.height,
                |pos: TilePos| self.tiles@[offset_of(self.width, pos)],
            ),
        }
    }
}

/// Where the tile at `pos` stands in the row-by-row storage of a grid that
/// is `width` tiles wide.
spec fn offset_of(width: u32, pos: TilePos) -> int {
    pos.y * width + pos.x
}

/// A tile of a `width` by `height` grid has its place in the row-by-row
/// storage, and two tiles have two places.
proof fn lemma_offset(width: u32, height: u32, pos: TilePos)
    requires
        pos.x < width,
        pos.y < height,
    ensures
        0 <= offset_of(width, pos) < width * height,
        forall|other: TilePos|
            other.x < width && other.y < height && other != pos ==> #[trigger] offset_of(
                width,
                other,
            ) != offset_of(width, pos),
{
    assert(pos.y * width + pos.x < width * height) by (nonlinear_arith)
        requires
            0 <= pos.x < width,
            0 <= pos.y < height,
    ;
    assert(0 <= pos.y * width) by (nonlinear_arith)
        requires
            0 <= pos.y,
            0 <= width,
    ;
    assert forall|other: TilePos|
        other.x < width && other.y < height && other != pos implies #[trigger] offset_of(
        width,
        other,
    ) != offset_of(width, pos) by {
        let (ox, oy, px, py, w) = (
            other.x as int,
            other.y as int,
            pos.x as int,
            pos.y as int,
            width as int,
        );
        if oy < py {
            assert(oy * w + ox < py * w + px) by (nonlinear_arith)
                requires
                    0 <= ox < w,
                    0 <= px,
                    0 <= oy < py,
            ;
        } else if py < oy {
            assert(py * w + px < oy * w + ox) by (nonlinear_arith)
                requires
                    0 <= px < w,
                    0 <= ox,
                    0 <= py < oy,
            ;
        }
    }
}

impl Grid {
    /// The storage holds one state for each tile.
    pub closed spec fn wf(&self) -> bool {
        self.tiles@.len() == self.width * self.height
    }

    /// A well-formed grid has a well-formed view.
    pub proof fn lemma_view_wf(&self)
        requires
            self.wf(),
        ensures
            self@.wf(),
    {
    }

    /// A grid of `width` by `height` tiles, each in `state`. There is none
    /// where the number of tiles does not fit the machine's word.
    pub fn filled(width: u32, height: u32, state: TileState) -> (made: Option<Grid>)
        ensures
            made is Some <==> width * height <= usize::MAX,
            made matches Some(grid) ==> grid.wf() && grid@ == GridView::uniform(width, height, state),
    {
        let columns: usize = width as usize;
        let rows: usize = height as usize;
        match columns.checked_mul(rows) {
            Some(count) => {
                let mut tiles: Vec<TileState> = Vec::new();
                let mut index: usize = 0;
                while index < count
                    invariant
                        index <= count,
                        tiles@.len() == index,
                        forall|i: int| 0 <= i < index ==> tiles@[i] == state,
                    decreases count - index,
                {
                    tiles.push(state);
                    index += 1;
                }
                let grid = Grid { width, height, tiles };
                assert forall|pos: TilePos| grid@.contains(pos) implies #[trigger] grid@.tiles[pos]
                    == state by {
                    lemma_offset(width, height, pos);
                }
                assert(grid@.tiles =~= GridView::uniform(width, height, state).tiles);
                Some(grid)
            },
            None => None,
        }
    }

    /// A grid of `width` by `height` empty tiles.
    pub fn new(width: u32, height: u32) -> (made: Option<Grid>)
        ensures
            made is Some <==> width * height <= usize::MAX,
            made matches Some(grid) ==> grid.wf() && grid@ == GridView::uniform(
                width,
                height,
                TileState::Empty,
            ),
    {
        Grid::filled(width, height, TileState::Empty)
    }

    pub fn width(&self) -> (width: u32)
        ensures
            width == self@.width,
    {
        self.width
    }

    pub fn height(&self) -> (height: u32)
        ensures
            height == self@.height,
    {
        self.height
    }

    /// Whether `pos` lies on the grid.
    pub fn in_bounds(&self, pos: TilePos) -> (inside: bool)
        ensures
            inside == self@.contains(pos),
    {
        pos.x < self.width && pos.y < self.height
    }

    /// Where the tile at `pos` is stored.
    fn offset(&self, pos: TilePos) -> (index: usize)
        requires
            self.wf(),
            self@.contains(pos),
        ensures
            index == offset_of(self.width, pos),
            index < self.tiles@.len(),
    {
        let count = self.tiles.len();
        proof {
            lemma_offset(self.width, self.height, pos);
            assert(0 <= pos.y * self.width) by (nonlinear_arith)
                requires
                    0 <= pos.y,
                    0 <= self.width,
            ;
        }
        let row: usize = pos.y as usize;
        let column: usize = pos.x as usize;
        let columns: usize = self.width as usize;
        row * columns + column
    }

    /// The state of the tile at `pos`, or nothing where `pos` lies outside
    /// the grid.
    pub fn get(&self, pos: TilePos) -> (state: Option<TileState>)
        requires
            self.wf(),
        ensures
            state == self@.state(pos),
    {
        if self.in_bounds(pos) {
            let index = self.offset(pos);
            Some(self.tiles[index])
        } else {
            None
        }
    }

    /// Puts the tile at `pos` in `state`. Returns whether `pos` lies on the
    /// grid; where it does not, nothing changes.
    pub fn set(&mut self, pos: TilePos, state: TileState) -> (inside: bool)
        requires
            old(self).wf(),
        ensures
            final(self).wf(),
            inside == old(self)@.contains(pos),
            final(self)@ == old(self)@.with(pos, state),
    {
        if self.in_bounds(pos) {
            let index = self.offset(pos);
            self.tiles[index] = state;
            proof {
                lemma_offset(self.width, self.height, pos);
                assert forall|other: TilePos| self@.contains(other) implies #[trigger] self@.tiles[other]
                    == old(self)@.with(pos, state).tiles[other] by {
                    lemma_offset(self.width, self.height, other);
                }
                assert(self@.tiles =~= old(self)@.with(pos, state).tiles);
            }
            true
        } else {
            false
        }
    }

    /// Puts every tile in `state`.
    pub fn fill(&mut self, state: TileState)
        requires
            old(self).wf(),
        ensures
            final(self).wf(),
            final(self)@ == old(self)@.filled(state),
    {
        let mut index: usize = 0;
        while index < self.tiles.len()
            invariant
                old(self).wf(),
                self.width == old(self).width,
                self.height == old(self).height,
                self.tiles@.len() == old(self).tiles@.len(),
                index <= self.tiles@.len(),
                forall|i: int| 0 <= i < index ==> self.tiles@[i] == state,
            decreases self.tiles@.len() - index,
        {
            self.tiles[index] = state;
            index += 1;
        }
        assert(self@.tiles =~= old(self)@.filled(state).tiles) by {
            assert forall|pos: TilePos| self@.contains(pos) implies #[trigger] self@.tiles[pos]
                == state by {
                lemma_offset(self.width, self.height, pos);
            }
        }
    }

    /// Wipes the trail of a search: every queued, visited or final tile
    /// becomes empty, and the others stay as they are.
    pub fn flush(&mut self)
        requires
            old(self).wf(),
        ensures
            final(self).wf(),
            final(self)@ == old(self)@.flushed(),
    {
        let mut index: usize = 0;
        while index < self.tiles.len()
            invariant
                old(self).wf(),
                self.width == old(self).width,
                self.height == old(self).height,
                self.tiles@.len() == old(self).tiles@.len(),
                index <= self.tiles@.len(),
                forall|i: int| 0 <= i < index ==> self.tiles@[i] == old(self).tiles@[i].flushed(),
                forall|i: int| index <= i < self.tiles@.len() ==> self.tiles@[i] == old(self).tiles@[i],
            decreases self.tiles@.len() - index,
        {
            if self.tiles[index].written_by_search() {
                self.tiles[index] = TileState::Empty;
            }
            index += 1;
        }
        assert(self@.tiles =~= old(self)@.flushed().tiles) by {
            assert forall|pos: TilePos| self@.contains(pos) implies #[trigger] self@.tiles[pos]
                == old(self)@.tiles[pos].flushed() by {
                lemma_offset(self.width, self.height, pos);
            }
        }
    }
}

} // verus!
