//! The frontier of a search: the tiles that were found and not yet looked
//! at, and the five orders in which the next one can be taken.

use vstd::prelude::*;
use std::collections::VecDeque;
use crate::tile::Tile;
use crate::grid::{Grid, GridView};
use crate::chance::{as_chance, choose_index, fair};

verus! {

/// The order in which a frontier hands out its tiles.
#[derive(Debug, Clone, Copy, PartialEq, Eq, Structural, Default)]
pub enum AlgorithmOption {
    /// The tile that has waited longest.
    #[default]
    BreadthFirst,
    /// The tile nearest to a goal.
    AStar,
    /// The tile farthest from every goal.
    ReverseAStar,
    /// The tile that came last.
    DepthFirst,
    /// Any tile, each with the same chance.
    Random,
}

/// The tile at `index` is as near as any in `queue`, and the first of those.
pub open spec fn is_first_nearest(queue: Seq<Tile>, index: int) -> bool {
    &&& 0 <= index < queue.len()
    &&& forall|j: int| 0 <= j < queue.len() ==> queue[index].distance <= (#[trigger] queue[j]).distance
    &&& forall|j: int| 0 <= j < index ==> queue[index].distance < (#[trigger] queue[j]).distance
}

/// The tile at `index` is as far as any in `queue`, and the first of those.
pub open spec fn is_first_farthest(queue: Seq<Tile>, index: int) -> bool {
    &&& 0 <= index < queue.len()
    &&& forall|j: int| 0 <= j < queue.len() ==> queue[index].distance >= (#[trigger] queue[j]).distance
    &&& forall|j: int| 0 <= j < index ==> queue[index].distance > (#[trigger] queue[j]).distance
}

/// Every tile of `queue` lies on `grid`.
pub open spec fn lies_on(queue: Seq<Tile>, grid: GridView) -> bool {
    forall|i: int| 0 <= i < queue.len() ==> grid.contains((#[trigger] queue[i]).pos)
}

/// Where in `queue`, which holds the tiles in the order in which they came,
/// the tile stands that is taken next. `chance` is what the random source
/// gave; only [`AlgorithmOption::Random`] looks at it.
pub open spec fn next_index(option: AlgorithmOption, queue: Seq<Tile>, chance: Option<int>) -> Option<
    int,
> {
    if queue.len() == 0 {
        None
    } else {
        match option {
            AlgorithmOption::BreadthFirst => Some(0),
            AlgorithmOption::DepthFirst => Some(queue.len() - 1),
            AlgorithmOption::AStar => Some(choose|index: int| is_first_nearest(queue, index)),
            AlgorithmOption::ReverseAStar => Some(choose|index: int| is_first_farthest(queue, index)),
            AlgorithmOption::Random => match chance {
                Some(index) => if 0 <= index < queue.len() {
                    Some(index)
                } else {
                    None
                },
                None => None,
            },
        }
    }
}

/// The tile that is taken next from `queue`, if any, and what is left.
pub open spec fn take_next(option: AlgorithmOption, queue: Seq<Tile>, chance: Option<int>) -> (
    Option<Tile>,
    Seq<Tile>,
) {
    match next_index(option, queue, chance) {
        Some(index) => (Some(queue[index]), queue.remove(index)),
        None => (None, queue),
    }
}

/// A queue has at most one first nearest tile.
pub proof fn lemma_first_nearest_unique(queue: Seq<Tile>, a: int, b: int)
    requires
        is_first_nearest(queue, a),
        is_first_nearest(queue, b),
    ensures
        a == b,
{
    if a < b {
        assert(queue[b].distance < queue[a].distance);
        assert(queue[a].distance <= queue[b].distance);
    }
    if b < a {
        assert(queue[a].distance < queue[b].distance);
        assert(queue[b].distance <= queue[a].distance);
    }
}

/// A queue has at most one first farthest tile.
pub proof fn lemma_first_farthest_unique(queue: Seq<Tile>, a: int, b: int)
    requires
        is_first_farthest(queue, a),
        is_first_farthest(queue, b),
    ensures
        a == b,
{
    if a < b {
        assert(queue[b].distance > queue[a].distance);
        assert(queue[a].distance >= queue[b].distance);
    }
    if b < a {
        assert(queue[a].distance > queue[b].distance);
        assert(queue[b].distance >= queue[a].distance);
    }
}

/// A queue that is not empty has a first nearest tile.
pub proof fn lemma_first_nearest_exists(queue: Seq<Tile>) -> (index: int)
    requires
        queue.len() > 0,
    ensures
        is_first_nearest(queue, index),
    decreases queue.len(),
{
    if queue.len() == 1 {
        0
    } else {
        let front = queue.drop_last();
        let best = lemma_first_nearest_exists(front);
        assert(front[best] == queue[best]);
        let last = queue.len() - 1;
        if queue[last].distance < queue[best].distance {
            assert forall|j: int| 0 <= j < queue.len() implies queue[last].distance <= (
            #[trigger] queue[j]).distance by {
                if j < last {
                    assert(front[j] == queue[j]);
                }
            }
            assert forall|j: int| 0 <= j < last implies queue[last].distance < (
            #[trigger] queue[j]).distance by {
                assert(front[j] == queue[j]);
            }
            last
        } else {
            assert forall|j: int| 0 <= j < queue.len() implies queue[best].distance <= (
            #[trigger] queue[j]).distance by {
                if j < last {
                    assert(front[j] == queue[j]);
                }
            }
            assert forall|j: int| 0 <= j < best implies queue[best].distance < (
            #[trigger] queue[j]).distance by {
                assert(front[j] == queue[j]);
            }
            best
        }
    }
}

/// A queue that is not empty has a first farthest tile.
pub proof fn lemma_first_farthest_exists(queue: Seq<Tile>) -> (index: int)
    requires
        queue.len() > 0,
    ensures
        is_first_farthest(queue, index),
    decreases queue.len(),
{
    if queue.len() == 1 {
        0
    } else {
        let front = queue.drop_last();
        let best = lemma_first_farthest_exists(front);
        assert(front[best] == queue[best]);
        let last = queue.len() - 1;
        if queue[last].distance > queue[best].distance {
            assert forall|j: int| 0 <= j < queue.len() implies queue[last].distance >= (
            #[trigger] queue[j]).distance by {
                if j < last {
                    assert(front[j] == queue[j]);
                }
            }
            assert forall|j: int| 0 <= j < last implies queue[last].distance > (
            #[trigger] queue[j]).distance by {
                assert(front[j] == queue[j]);
            }
            last
        } else {
            assert forall|j: int| 0 <= j < queue.len() implies queue[best].distance >= (
            #[trigger] queue[j]).distance by {
                if j < last {
                    assert(front[j] == queue[j]);
                }
            }
            assert forall|j: int| 0 <= j < best implies queue[best].distance > (
            #[trigger] queue[j]).distance by {
                assert(front[j] == queue[j]);
            }
            best
        }
    }
}

/// Computes [`lies_on`] for tiles held in a vector.
fn vec_lies_on(tiles: &Vec<Tile>, grid: &Grid) -> (all: bool)
    ensures
        all == lies_on(tiles@, grid@),
{
    let mut index: usize = 0;
    while index < tiles.len()
        invariant
            index <= tiles@.len(),
            forall|i: int| 0 <= i < index ==> grid@.contains((#[trigger] tiles@[i]).pos),
        decreases tiles@.len() - index,
    {
        if !grid.in_bounds(tiles[index].pos) {
            return false;
        }
        index += 1;
    }
    true
}

/// Computes [`lies_on`] for tiles held in a queue.
fn deque_lies_on(tiles: &VecDeque<Tile>, grid: &Grid) -> (all: bool)
    ensures
        all == lies_on(tiles@, grid@),
{
    let mut index: usize = 0;
    while index < tiles.len()
        invariant
            index <= tiles@.len(),
            forall|i: int| 0 <= i < index ==> grid@.contains((#[trigger] tiles@[i]).pos),
        decreases tiles@.len() - index,
    {
        if !grid.in_bounds(tiles[index].pos) {
            return false;
        }
        index += 1;
    }
    true
}

/// A frontier: tiles go in one by one, and come out one by one in the order
/// of the strategy.
pub trait Algorithm {
    /// The strategy by which tiles are taken.
    spec fn option(&self) -> AlgorithmOption;

    /// The tiles that wait, in the order in which they came.
    spec fn queue(&self) -> Seq<Tile>;

    /// Adds `tile` behind those that wait.
    fn insert(&mut self, tile: Tile)
        ensures
            final(self).option() == old(self).option(),
            final(self).queue() == old(self).queue().push(tile),
    ;

    /// Takes the next tile out. There is none only where none waits. Every
    /// strategy but the random one picks its tile by the queue alone; the
    /// random one takes the tile at a place that the random source gave.
    fn next(&mut self) -> (taken: Option<Tile>)
        ensures
            final(self).option() == old(self).option(),
            taken is None <==> old(self).queue().len() == 0,
            old(self).option() != AlgorithmOption::Random ==> (taken, final(self).queue())
                == take_next(old(self).option(), old(self).queue(), None),
            exists|chance: Option<int>|
                fair(chance, old(self).queue().len()) && (taken, final(self).queue())
                    == #[trigger] take_next(old(self).option(), old(self).queue(), chance),
    ;
}

/// Takes the tile that has waited longest: a queue.
#[derive(Debug)]
pub struct BreadthFirst {
    queue: VecDeque<Tile>,
}

impl BreadthFirst {
    /// Whether every tile that waits lies on `grid`.
    pub fn lies_on(&self, grid: &Grid) -> (all: bool)
        ensures
            all == lies_on(self.queue(), grid@),
    {
        deque_lies_on(&self.queue, grid)
    }

    pub fn new() -> (made: BreadthFirst)
        ensures
            made.queue() == Seq::<Tile>::empty(),
    {
        BreadthFirst { queue: VecDeque::new() }
    }
}

impl Default for BreadthFirst {
    fn default() -> (made: BreadthFirst)
        ensures
            made.queue() == Seq::<Tile>::empty(),
    {
        BreadthFirst::new()
    }
}

impl Algorithm for BreadthFirst {
    open spec fn option(&self) -> AlgorithmOption {
        AlgorithmOption::BreadthFirst
    }

    closed spec fn queue(&self) -> Seq<Tile> {
        self.queue@
    }

    fn insert(&mut self, tile: Tile) {
        self.queue.push_back(tile);
    }

    fn next(&mut self) -> (taken: Option<Tile>) {
        let taken = self.queue.pop_front();
        proof {
            let before = old(self).queue();
            if before.len() > 0 {
                assert(before.subrange(1, before.len() as int) =~= before.remove(0));
            }
            assert(fair(None, 0));
            assert(fair(Some(0), before.len()) || before.len() == 0);
            let chance = if before.len() == 0 { None } else { Some(0int) };
            assert((taken, self.queue()) == take_next(AlgorithmOption::BreadthFirst, before, chance));
        }
        taken
    }
}

/// Takes the tile that came last: a stack.
#[derive(Debug)]
pub struct DepthFirst {
    queue: Vec<Tile>,
}

impl DepthFirst {
    /// Whether every tile that waits lies on `grid`.
    pub fn lies_on(&self, grid: &Grid) -> (all: bool)
        ensures
            all == lies_on(self.queue(), grid@),
    {
        vec_lies_on(&self.queue, grid)
    }

    pub fn new() -> (made: DepthFirst)
        ensures
            made.queue() == Seq::<Tile>::empty(),
    {
        DepthFirst { queue: Vec::new() }
    }
}

impl Default for DepthFirst {
    fn default() -> (made: DepthFirst)
        ensures
            made.queue() == Seq::<Tile>::empty(),
    {
        DepthFirst::new()
    }
}

impl Algorithm for DepthFirst {
    open spec fn option(&self) -> AlgorithmOption {
        AlgorithmOption::DepthFirst
    }

    closed spec fn queue(&self) -> Seq<Tile> {
        self.queue@
    }

    fn insert(&mut self, tile: Tile) {
        self.queue.push(tile);
    }

    fn next(&mut self) -> (taken: Option<Tile>) {
        let taken = self.queue.pop();
        proof {
            let before = old(self).queue();
            if before.len() > 0 {
                assert(before.subrange(0, before.len() - 1) =~= before.remove(before.len() - 1));
            }
            let chance = if before.len() == 0 { None } else { Some(0int) };
            assert(fair(chance, before.len()));
            assert((taken, self.queue()) == take_next(AlgorithmOption::DepthFirst, before, chance));
        }
        taken
    }
}

/// Where the first nearest tile of `queue` stands.
fn first_nearest(queue: &Vec<Tile>) -> (index: usize)
    requires
        queue@.len() > 0,
    ensures
        is_first_nearest(queue@, index as int),
{
    let mut best: usize = 0;
    let mut index: usize = 1;
    while index < queue.len()
        invariant
            0 <= best < index <= queue@.len(),
            is_first_nearest(queue@.take(index as int), best as int),
        decreases queue@.len() - index,
    {
        let ghost seen = queue@.take(index as int);
        let ghost more = queue@.take(index + 1);
        if queue[index].distance < queue[best].distance {
            proof {
                assert forall|j: int| 0 <= j < more.len() implies more[index as int].distance <= (
                #[trigger] more[j]).distance by {
                    if j < index {
                        assert(seen[j] == more[j]);
                    }
                }
                assert forall|j: int| 0 <= j < index implies more[index as int].distance < (
                #[trigger] more[j]).distance by {
                    assert(seen[j] == more[j]);
                }
            }
            best = index;
        } else {
            proof {
                assert forall|j: int| 0 <= j < more.len() implies more[best as int].distance <= (
                #[trigger] more[j]).distance by {
                    if j < index {
                        assert(seen[j] == more[j]);
                    }
                }
                assert forall|j: int| 0 <= j < best implies more[best as int].distance < (
                #[trigger] more[j]).distance by {
                    assert(seen[j] == more[j]);
                }
            }
        }
        index += 1;
    }
    assert(queue@.take(index as int) =~= queue@);
    best
}

/// Where the first farthest tile of `queue` stands.
fn first_farthest(queue: &Vec<Tile>) -> (index: usize)
    requires
        queue@.len() > 0,
    ensures
        is_first_farthest(queue@, index as int),
{
    let mut best: usize = 0;
    let mut index: usize = 1;
    while index < queue.len()
        invariant
            0 <= best < index <= queue@.len(),
            is_first_farthest(queue@.take(index as int), best as int),
        decreases queue@.len() - index,
    {
        let ghost seen = queue@.take(index as int);
        let ghost more = queue@.take(index + 1);
        if queue[index].distance > queue[best].distance {
            proof {
                assert forall|j: int| 0 <= j < more.len() implies more[index as int].distance >= (
                #[trigger] more[j]).distance by {
                    if j < index {
                        assert(seen[j] == more[j]);
                    }
                }
                assert forall|j: int| 0 <= j < index implies more[index as int].distance > (
                #[trigger] more[j]).distance by {
                    assert(seen[j] == more[j]);
                }
            }
            best = index;
        } else {
            proof {
                assert forall|j: int| 0 <= j < more.len() implies more[best as int].distance >= (
                #[trigger] more[j]).distance by {
                    if j < index {
                        assert(seen[j] == more[j]);
                    }
                }
                assert forall|j: int| 0 <= j < best implies more[best as int].distance > (
                #[trigger] more[j]).distance by {
                    assert(seen[j] == more[j]);
                }
            }
        }
        index += 1;
    }
    assert(queue@.take(index as int) =~= queue@);
    best
}

/// Takes the tile nearest to a goal, and of several the one that came
/// first.
#[derive(Debug)]
pub struct AStar {
    queue: Vec<Tile>,
}

impl AStar {
    /// Whether every tile that waits lies on `grid`.
    pub fn lies_on(&self, grid: &Grid) -> (all: bool)
        ensures
            all == lies_on(self.queue(), grid@),
    {
        vec_lies_on(&self.queue, grid)
    }

    pub fn new() -> (made: AStar)
        ensures
            made.queue() == Seq::<Tile>::empty(),
    {
        AStar { queue: Vec::new() }
    }
}

impl Default for AStar {
    fn default() -> (made: AStar)
        ensures
            made.queue() == Seq::<Tile>::empty(),
    {
        AStar::new()
    }
}

impl Algorithm for AStar {
    open spec fn option(&self) -> AlgorithmOption {
        AlgorithmOption::AStar
    }

    closed spec fn queue(&self) -> Seq<Tile> {
        self.queue@
    }

    fn insert(&mut self, tile: Tile) {
        self.queue.push(tile);
    }

    fn next(&mut self) -> (taken: Option<Tile>) {
        if self.queue.len() == 0 {
            assert(fair(None, 0));
            assert((None::<Tile>, self.queue()) == take_next(AlgorithmOption::AStar, self.queue(), None));
            return None;
        }
        let index = first_nearest(&self.queue);
        let tile = self.queue.remove(index);
        proof {
            let before = old(self).queue();
            let chosen = choose|i: int| is_first_nearest(before, i);
            lemma_first_nearest_unique(before, index as int, chosen);
            assert(fair(Some(0), before.len()));
            assert((Some(tile), self.queue()) == take_next(AlgorithmOption::AStar, before, Some(0)));
        }
        Some(tile)
    }
}

/// Takes the tile farthest from every goal, and of several the one that
/// came first.
#[derive(Debug)]
pub struct ReverseAStar {
    queue: Vec<Tile>,
}

impl ReverseAStar {
    /// Whether every tile that waits lies on `grid`.
    pub fn lies_on(&self, grid: &Grid) -> (all: bool)
        ensures
            all == lies_on(self.queue(), grid@),
    {
        vec_lies_on(&self.queue, grid)
    }

    pub fn new() -> (made: ReverseAStar)
        ensures
            made.queue() == Seq::<Tile>::empty(),
    {
        ReverseAStar { queue: Vec::new() }
    }
}

impl Default for ReverseAStar {
    fn default() -> (made: ReverseAStar)
        ensures
            made.queue() == Seq::<Tile>::empty(),
    {
        ReverseAStar::new()
    }
}

impl Algorithm for ReverseAStar {
    open spec fn option(&self) -> AlgorithmOption {
        AlgorithmOption::ReverseAStar
    }

    closed spec fn queue(&self) -> Seq<Tile> {
        self.queue@
    }

    fn insert(&mut self, tile: Tile) {
        self.queue.push(tile);
    }

    fn next(&mut self) -> (taken: Option<Tile>) {
        if self.queue.len() == 0 {
            assert(fair(None, 0));
            assert((None::<Tile>, self.queue()) == take_next(
                AlgorithmOption::ReverseAStar,
                self.queue(),
                None,
            ));
            return None;
        }
        let index = first_farthest(&self.queue);
        let tile = self.queue.remove(index);
        proof {
            let before = old(self).queue();
            let chosen = choose|i: int| is_first_farthest(before, i);
            lemma_first_farthest_unique(before, index as int, chosen);
            assert(fair(Some(0), before.len()));
            assert((Some(tile), self.queue()) == take_next(
                AlgorithmOption::ReverseAStar,
                before,
                Some(0),
            ));
        }
        Some(tile)
    }
}

/// Takes any tile, each with the same chance: a bag.
#[derive(Debug)]
pub struct Random {
    queue: Vec<Tile>,
}

impl Random {
    /// Whether every tile that waits lies on `grid`.
    pub fn lies_on(&self, grid: &Grid) -> (all: bool)
        ensures
            all == lies_on(self.queue(), grid@),
    {
        vec_lies_on(&self.queue, grid)
    }

    pub fn new() -> (made: Random)
        ensures
            made.queue() == Seq::<Tile>::empty(),
    {
        Random { queue: Vec::new() }
    }

    /// Takes out the tile at the place that the random source gave. Nothing
    /// is taken where it gave none, or one at which no tile waits.
    pub fn take(&mut self, chosen: Option<usize>) -> (taken: Option<Tile>)
        ensures
            (taken, final(self).queue()) == take_next(
                AlgorithmOption::Random,
                old(self).queue(),
                as_chance(chosen),
            ),
    {
        match chosen {
            Some(index) => {
                if index < self.queue.len() {
                    Some(self.queue.remove(index))
                } else {
                    None
                }
            },
            None => None,
        }
    }
}

impl Default for Random {
    fn default() -> (made: Random)
        ensures
            made.queue() == Seq::<Tile>::empty(),
    {
        Random::new()
    }
}

impl Algorithm for Random {
    open spec fn option(&self) -> AlgorithmOption {
        AlgorithmOption::Random
    }

    closed spec fn queue(&self) -> Seq<Tile> {
        self.queue@
    }

    fn insert(&mut self, tile: Tile) {
        self.queue.push(tile);
    }

    fn next(&mut self) -> (taken: Option<Tile>) {
        let chosen = choose_index(self.queue.len());
        self.take(chosen)
    }
}

/// A frontier of any of the five strategies.
#[derive(Debug)]
pub enum Frontier {
    BreadthFirst(BreadthFirst),
    AStar(AStar),
    ReverseAStar(ReverseAStar),
    DepthFirst(DepthFirst),
    Random(Random),
}

impl Frontier {
    /// An empty frontier that hands out its tiles by `option`.
    pub fn new(option: AlgorithmOption) -> (made: Frontier)
        ensures
            made.option() == option,
            made.queue() == Seq::<Tile>::empty(),
    {
        match option {
            AlgorithmOption::BreadthFirst => Frontier::BreadthFirst(BreadthFirst::new()),
            AlgorithmOption::AStar => Frontier::AStar(AStar::new()),
            AlgorithmOption::ReverseAStar => Frontier::ReverseAStar(ReverseAStar::new()),
            AlgorithmOption::DepthFirst => Frontier::DepthFirst(DepthFirst::new()),
            AlgorithmOption::Random => Frontier::Random(Random::new()),
        }
    }

    /// The strategy of this frontier.
    pub fn strategy(&self) -> (option: AlgorithmOption)
        ensures
            option == self.option(),
    {
        match self {
            Frontier::BreadthFirst(_) => AlgorithmOption::BreadthFirst,
            Frontier::AStar(_) => AlgorithmOption::AStar,
            Frontier::ReverseAStar(_) => AlgorithmOption::ReverseAStar,
            Frontier::DepthFirst(_) => AlgorithmOption::DepthFirst,
            Frontier::Random(_) => AlgorithmOption::Random,
        }
    }

    /// Whether every tile that waits lies on `grid`.
    pub fn lies_on(&self, grid: &Grid) -> (all: bool)
        ensures
            all == lies_on(self.queue(), grid@),
    {
        match self {
            Frontier::BreadthFirst(inner) => inner.lies_on(grid),
            Frontier::AStar(inner) => inner.lies_on(grid),
            Frontier::ReverseAStar(inner) => inner.lies_on(grid),
            Frontier::DepthFirst(inner) => inner.lies_on(grid),
            Frontier::Random(inner) => inner.lies_on(grid),
        }
    }

    /// Takes the next tile out, as [`Algorithm::next`] does, with `chosen`
    /// in the place of what the random source would give.
    pub fn next_with(&mut self, chosen: Option<usize>) -> (taken: Option<Tile>)
        ensures
            final(self).option() == old(self).option(),
            (taken, final(self).queue()) == take_next(
                old(self).option(),
                old(self).queue(),
                as_chance(chosen),
            ),
    {
        match self {
            Frontier::BreadthFirst(inner) => inner.next(),
            Frontier::AStar(inner) => inner.next(),
            Frontier::ReverseAStar(inner) => inner.next(),
            Frontier::DepthFirst(inner) => inner.next(),
            Frontier::Random(inner) => inner.take(chosen),
        }
    }
}

impl Algorithm for Frontier {
    open spec fn option(&self) -> AlgorithmOption {
        match self {
            Frontier::BreadthFirst(_) => AlgorithmOption::BreadthFirst,
            Frontier::AStar(_) => AlgorithmOption::AStar,
            Frontier::ReverseAStar(_) => AlgorithmOption::ReverseAStar,
            Frontier::DepthFirst(_) => AlgorithmOption::DepthFirst,
            Frontier::Random(_) => AlgorithmOption::Random,
        }
    }

    open spec fn queue(&self) -> Seq<Tile> {
        match self {
            Frontier::BreadthFirst(inner) => inner.queue(),
            Frontier::AStar(inner) => inner.queue(),
            Frontier::ReverseAStar(inner) => inner.queue(),
            Frontier::DepthFirst(inner) => inner.queue(),
            Frontier::Random(inner) => inner.queue(),
        }
    }

    fn insert(&mut self, tile: Tile) {
        match self {
            Frontier::BreadthFirst(inner) => inner.insert(tile),
            Frontier::AStar(inner) => inner.insert(tile),
            Frontier::ReverseAStar(inner) => inner.insert(tile),
            Frontier::DepthFirst(inner) => inner.insert(tile),
            Frontier::Random(inner) => inner.insert(tile),
        }
    }

    fn next(&mut self) -> (taken: Option<Tile>) {
        match self {
            Frontier::BreadthFirst(inner) => inner.next(),
            Frontier::AStar(inner) => inner.next(),
            Frontier::ReverseAStar(inner) => inner.next(),
            Frontier::DepthFirst(inner) => inner.next(),
            Frontier::Random(inner) => inner.next(),
        }
    }
}

} // verus!
