//! Distances between coordinates.
//!
//! The distance between two tiles is the Euclidean one, rounded down to a
//! whole number. It is computed on integers throughout.

use vstd::prelude::*;
use crate::position::TilePos;
use crate::tile_set::TileSet;

verus! {

/// `root` is the square root of `n`, rounded down.
pub open spec fn is_floor_sqrt(n: nat, root: nat) -> bool {
    root * root <= n < (root + 1) * (root + 1)
}

/// The square root of `n`, rounded down.
pub open spec fn floor_sqrt(n: nat) -> nat {
    choose|root: nat| is_floor_sqrt(n, root)
}

/// How far apart two columns, or two rows, are.
pub open spec fn span(a: u32, b: u32) -> nat {
    if a <= b {
        (b - a) as nat
    } else {
        (a - b) as nat
    }
}

/// The Euclidean distance between `a` and `b`, rounded down.
pub open spec fn euclid(a: TilePos, b: TilePos) -> nat {
    floor_sqrt(span(a.x, b.x) * span(a.x, b.x) + span(a.y, b.y) * span(a.y, b.y))
}

/// The number of steps between `a` and `b` along the axes.
pub open spec fn manhattan(a: TilePos, b: TilePos) -> nat {
    span(a.x, b.x) + span(a.y, b.y)
}

/// The distance from `pos` to the nearest of `goals`, and 0 where there is
/// no goal.
pub open spec fn heuristic(pos: TilePos, goals: Seq<TilePos>) -> nat
    decreases goals.len(),
{
    if goals.len() == 0 {
        0
    } else if goals.len() == 1 {
        euclid(pos, goals[0])
    } else {
        let rest = heuristic(pos, goals.drop_last());
        let last = euclid(pos, goals.last());
        if last < rest {
            last
        } else {
            rest
        }
    }
}

/// A number has one rounded-down square root.
pub proof fn lemma_floor_sqrt_unique(n: nat, a: nat, b: nat)
    requires
        is_floor_sqrt(n, a),
        is_floor_sqrt(n, b),
    ensures
        a == b,
{
    if a < b {
        assert((a + 1) * (a + 1) <= b * b) by (nonlinear_arith)
            requires
                a + 1 <= b,
        ;
    }
    if b < a {
        assert((b + 1) * (b + 1) <= a * a) by (nonlinear_arith)
            requires
                b + 1 <= a,
        ;
    }
}

/// Every number has a rounded-down square root, and `floor_sqrt` is it.
pub proof fn lemma_floor_sqrt(n: nat)
    ensures
        is_floor_sqrt(n, floor_sqrt(n)),
    decreases n,
{
    if n == 0 {
        assert(0nat * 0nat <= 0nat < (0nat + 1) * (0nat + 1)) by (nonlinear_arith);
        assert(is_floor_sqrt(0, 0));
    } else {
        lemma_floor_sqrt((n - 1) as nat);
        let below = floor_sqrt((n - 1) as nat);
        if (below + 1) * (below + 1) <= n {
            assert((below + 1) * (below + 1) == n);
            assert(n < (below + 2) * (below + 2)) by (nonlinear_arith)
                requires
                    (below + 1) * (below + 1) == n,
            ;
            assert(is_floor_sqrt(n, below + 1));
        } else {
            assert(is_floor_sqrt(n, below));
        }
    }
}

/// A larger number has no smaller root.
pub proof fn lemma_floor_sqrt_monotonic(a: nat, b: nat)
    requires
        a <= b,
    ensures
        floor_sqrt(a) <= floor_sqrt(b),
{
    lemma_floor_sqrt(a);
    lemma_floor_sqrt(b);
    let ra = floor_sqrt(a);
    let rb = floor_sqrt(b);
    if rb < ra {
        assert((rb + 1) * (rb + 1) <= ra * ra) by (nonlinear_arith)
            requires
                rb + 1 <= ra,
        ;
    }
}

/// `heuristic` is the least distance to a goal: some goal is that near, and
/// none is nearer.
pub proof fn lemma_heuristic_is_least(pos: TilePos, goals: Seq<TilePos>)
    requires
        goals.len() > 0,
    ensures
        exists|i: int| 0 <= i < goals.len() && heuristic(pos, goals) == euclid(pos, #[trigger] goals[i]),
        forall|i: int| 0 <= i < goals.len() ==> heuristic(pos, goals) <= euclid(pos, #[trigger] goals[i]),
    decreases goals.len(),
{
    if goals.len() == 1 {
        assert(heuristic(pos, goals) == euclid(pos, goals[0]));
    } else {
        let rest = goals.drop_last();
        lemma_heuristic_is_least(pos, rest);
        let near = choose|i: int|
            0 <= i < rest.len() && heuristic(pos, rest) == euclid(pos, #[trigger] rest[i]);
        assert(rest[near] == goals[near]);
        let last = goals.len() - 1;
        assert(goals.last() == goals[last]);
        if euclid(pos, goals.last()) < heuristic(pos, rest) {
            assert(heuristic(pos, goals) == euclid(pos, goals[last]));
        } else {
            assert(heuristic(pos, goals) == euclid(pos, goals[near]));
        }
        assert forall|i: int| 0 <= i < goals.len() implies heuristic(pos, goals) <= euclid(
            pos,
            #[trigger] goals[i],
        ) by {
            if i < last {
                assert(rest[i] == goals[i]);
            }
        }
    }
}

/// No two coordinates are farther apart than this.
pub const MAX_DISTANCE: u64 = 0x1_6A09_E667;

/// The distance between two coordinates is at most [`MAX_DISTANCE`].
pub proof fn lemma_euclid_fits(a: TilePos, b: TilePos)
    ensures
        euclid(a, b) <= MAX_DISTANCE,
{
    let dx = span(a.x, b.x);
    let dy = span(a.y, b.y);
    let root = euclid(a, b);
    lemma_floor_sqrt(dx * dx + dy * dy);
    assert(dx * dx <= 0xFFFF_FFFF * 0xFFFF_FFFF && dy * dy <= 0xFFFF_FFFF * 0xFFFF_FFFF)
        by (nonlinear_arith)
        requires
            0 <= dx <= 0xFFFF_FFFF,
            0 <= dy <= 0xFFFF_FFFF,
    ;
    if root > MAX_DISTANCE {
        assert(root * root >= 0x1_6A09_E668 * 0x1_6A09_E668) by (nonlinear_arith)
            requires
                root >= 0x1_6A09_E668,
        ;
    }
}

/// The square root of `n`, rounded down.
pub fn isqrt(n: u128) -> (root: u64)
    ensures
        root == floor_sqrt(n as nat),
        is_floor_sqrt(n as nat, root as nat),
{
    let mut low: u128 = 0;
    let mut high: u128 = 0x1_0000_0000_0000_0000;
    assert(n < high * high) by (nonlinear_arith)
        requires
            high == 0x1_0000_0000_0000_0000,
            n <= u128::MAX,
    ;
    while high - low > 1
        invariant
            low < high <= 0x1_0000_0000_0000_0000,
            low * low <= n < high * high,
        decreases high - low,
    {
        let middle: u128 = low + (high - low) / 2;
        assert(middle * middle <= 0xFFFF_FFFF_FFFF_FFFF * 0xFFFF_FFFF_FFFF_FFFF) by (nonlinear_arith)
            requires
                0 <= middle <= 0xFFFF_FFFF_FFFF_FFFF,
        ;
        if middle * middle <= n {
            low = middle;
        } else {
            high = middle;
        }
    }
    proof {
        assert(high == low + 1);
        assert(is_floor_sqrt(n as nat, low as nat));
        lemma_floor_sqrt(n as nat);
        lemma_floor_sqrt_unique(n as nat, low as nat, floor_sqrt(n as nat));
    }
    low as u64
}

/// Computes [`span`].
fn gap(a: u32, b: u32) -> (d: u32)
    ensures
        d == span(a, b),
{
    if a <= b {
        b - a
    } else {
        a - b
    }
}

/// The Euclidean distance between two tiles, rounded down.
pub fn distance(a: TilePos, b: TilePos) -> (d: u64)
    ensures
        d == euclid(a, b),
        d <= MAX_DISTANCE,
{
    let dx: u128 = gap(a.x, b.x) as u128;
    let dy: u128 = gap(a.y, b.y) as u128;
    assert(dx * dx <= 0xFFFF_FFFF * 0xFFFF_FFFF && dy * dy <= 0xFFFF_FFFF * 0xFFFF_FFFF)
        by (nonlinear_arith)
        requires
            0 <= dx <= 0xFFFF_FFFF,
            0 <= dy <= 0xFFFF_FFFF,
    ;
    let root = isqrt(dx * dx + dy * dy);
    assert(root <= MAX_DISTANCE) by {
        if root > MAX_DISTANCE {
            assert(root * root >= 0x1_6A09_E668 * 0x1_6A09_E668) by (nonlinear_arith)
                requires
                    root >= 0x1_6A09_E668,
            ;
        }
    }
    root
}

/// The distance from `pos` to the nearest member of `goals`, and 0 where
/// `goals` is empty.
pub fn nearest(pos: TilePos, goals: &TileSet) -> (d: u64)
    ensures
        d == heuristic(pos, goals@),
        d <= MAX_DISTANCE,
        goals@.len() == 0 ==> d == 0,
        goals@.len() > 0 ==> exists|i: int| 0 <= i < goals@.len() && d == euclid(pos, #[trigger] goals@[i]),
        forall|i: int| 0 <= i < goals@.len() ==> d <= euclid(pos, #[trigger] goals@[i]),
{
    if goals.len() == 0 {
        return 0;
    }
    proof {
        lemma_heuristic_is_least(pos, goals@);
    }
    let mut best = distance(pos, goals.get(0));
    let mut index: usize = 1;
    assert(goals@.take(1) =~= seq![goals@[0]]);
    while index < goals.len()
        invariant
            1 <= index <= goals@.len(),
            best == heuristic(pos, goals@.take(index as int)),
            best <= MAX_DISTANCE,
        decreases goals@.len() - index,
    {
        let here = distance(pos, goals.get(index));
        proof {
            let more = goals@.take(index + 1);
            assert(more.drop_last() =~= goals@.take(index as int));
            assert(more.last() == goals@[index as int]);
        }
        if here < best {
            best = here;
        }
        index += 1;
    }
    assert(goals@.take(index as int) =~= goals@);
    best
}

} // verus!
