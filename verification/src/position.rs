//! Grid coordinates and the integer key that stands for one in hashed
//! collections.

use vstd::prelude::*;

verus! {

/// A coordinate on the grid. `x` counts columns and `y` counts rows.
#[derive(Clone, Copy, Debug, PartialEq, Eq, Structural, Hash, Default)]
pub struct TilePos {
    pub x: u32,
    pub y: u32,
}

impl TilePos {
    /// The key of this coordinate: `x` in the upper 32 bits, `y` in the lower.
    pub open spec fn code(self) -> u64 {
        (self.x * 0x1_0000_0000 + self.y) as u64
    }

    /// The coordinate that a key stands for.
    pub open spec fn from_code(code: u64) -> TilePos {
        TilePos { x: (code / 0x1_0000_0000) as u32, y: (code % 0x1_0000_0000) as u32 }
    }

    /// The coordinate one column to the right, or `self` in the last column
    /// that a `u32` can name.
    pub open spec fn right(self) -> TilePos {
        TilePos { x: if self.x < u32::MAX { (self.x + 1) as u32 } else { self.x }, y: self.y }
    }

    /// The coordinate one column to the left, or `self` in column 0.
    pub open spec fn left(self) -> TilePos {
        TilePos { x: if self.x > 0 { (self.x - 1) as u32 } else { self.x }, y: self.y }
    }

    /// The coordinate one row up, or `self` in the last row that a `u32` can
    /// name.
    pub open spec fn up(self) -> TilePos {
        TilePos { x: self.x, y: if self.y < u32::MAX { (self.y + 1) as u32 } else { self.y } }
    }

    /// The coordinate one row down, or `self` in row 0.
    pub open spec fn down(self) -> TilePos {
        TilePos { x: self.x, y: if self.y > 0 { (self.y - 1) as u32 } else { self.y } }
    }

    /// The four axis-aligned neighbours in the order in which a search looks
    /// at them: `+x`, `-x`, `+y`, `-y`.
    pub open spec fn adjacent(self) -> Seq<TilePos> {
        seq![self.right(), self.left(), self.up(), self.down()]
    }

    pub fn new(x: u32, y: u32) -> (pos: TilePos)
        ensures
            pos == (TilePos { x, y }),
    {
        TilePos { x, y }
    }

    /// Computes [`TilePos::code`].
    pub fn key(self) -> (code: u64)
        ensures
            code == self.code(),
            TilePos::from_code(code) == self,
    {
        let high: u64 = self.x as u64;
        let low: u64 = self.y as u64;
        high * 0x1_0000_0000 + low
    }

    /// Computes [`TilePos::adjacent`].
    pub fn neighbors(self) -> (around: [TilePos; 4])
        ensures
            around@ == self.adjacent(),
    {
        let TilePos { x, y } = self;
        let around = [
            TilePos { x: x.saturating_add(1), y },
            TilePos { x: x.saturating_sub(1), y },
            TilePos { x, y: y.saturating_add(1) },
            TilePos { x, y: y.saturating_sub(1) },
        ];
        assert(around@ =~= self.adjacent());
        around
    }
}

/// Two coordinates with one key are one coordinate, and every key stands for
/// a coordinate.
pub proof fn lemma_code_injective(a: TilePos, b: TilePos)
    ensures
        a.code() == b.code() <==> a == b,
        TilePos::from_code(a.code()) == a,
{
}

/// Every key is the key of the coordinate it stands for.
pub proof fn lemma_code_surjective(code: u64)
    ensures
        TilePos::from_code(code).code() == code,
{
}

} // verus!
