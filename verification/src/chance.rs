//! The one place where the library asks for a random number.

use vstd::prelude::*;
use rand::seq::IteratorRandom;

verus! {

/// What may come back from [`choose_index`] when it is asked for one of
/// `count` numbers: nothing where there is none to choose, and else a number
/// below `count`.
pub open spec fn fair(chance: Option<int>, count: nat) -> bool {
    match chance {
        Some(index) => 0 <= index < count,
        None => count == 0,
    }
}

/// The same for a number as the machine holds it.
pub open spec fn as_chance(chosen: Option<usize>) -> Option<int> {
    match chosen {
        Some(index) => Some(index as int),
        None => None,
    }
}

/// Picks one of the numbers `0`, `1`, ... below `count`, each with the same
/// chance.
///
/// The body hands the range `0..count` to `rand::seq::IteratorRandom::choose`
/// with the generator of the current thread, `rand::rng()`. A range knows
/// its length, so `choose` returns `None` for the empty range, and for any
/// other the element that stands at a place it has drawn below the length.
/// The contract says that much and nothing of which number comes.
#[verifier::external_body]
pub(crate) fn choose_index(count: usize) -> (chosen: Option<usize>)
    ensures
        fair(as_chance(chosen), count as nat),
{
    (0..count).choose(&mut rand::rng())
}

} // verus!
