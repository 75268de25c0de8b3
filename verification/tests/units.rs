use std::cmp::Ordering;

use maze_generator::prelude::{Coordinates, Direction, Generator};
use maze_generator::recursive_backtracking::RbGenerator;
use path_finding::algorithm::{
    AStar, Algorithm, AlgorithmOption, BreadthFirst, DepthFirst, Frontier, Random, ReverseAStar,
};
use path_finding::controls::{auto_tick, brush, MAX_AUTO_SPEED};
use path_finding::distance::{distance, isqrt, nearest, MAX_DISTANCE};
use path_finding::generate::{carve_maze, generate_flat, generate_maze, MAX_MAZE_SIDE};
use path_finding::grid::{Grid, TileState};
use path_finding::position::TilePos;
use path_finding::tile::Tile;
use path_finding::tile_set::TileSet;

fn set_of(tiles: &[(u32, u32)]) -> TileSet {
    let mut set = TileSet::new();
    for &(x, y) in tiles {
        set.insert(TilePos::new(x, y));
    }
    set
}

fn tile(x: u32, y: u32, distance: u64) -> Tile {
    Tile { pos: TilePos::new(x, y), distance }
}

fn drain(frontier: &mut impl Algorithm) -> Vec<Tile> {
    let mut order = Vec::new();
    while let Some(tile) = frontier.next() {
        order.push(tile);
    }
    order
}

fn same(a: &[Tile], b: &[Tile]) -> bool {
    a.len() == b.len() && a.iter().zip(b).all(|(x, y)| x.pos == y.pos && x.distance == y.distance)
}

#[test]
fn square_roots_are_rounded_down() {
    assert_eq!(isqrt(0), 0);
    assert_eq!(isqrt(1), 1);
    assert_eq!(isqrt(2), 1);
    assert_eq!(isqrt(3), 1);
    assert_eq!(isqrt(4), 2);
    assert_eq!(isqrt(8), 2);
    assert_eq!(isqrt(9), 3);
    assert_eq!(isqrt(99), 9);
    assert_eq!(isqrt(100), 10);
    assert_eq!(isqrt(1 << 64), 1 << 32);
    assert_eq!(isqrt((1 << 64) - 1), (1 << 32) - 1);
    assert_eq!(isqrt(u128::MAX), u64::MAX);
    for n in 0..2000u128 {
        let root = isqrt(n) as u128;
        assert!(root * root <= n);
        assert!(n < (root + 1) * (root + 1));
    }
}

#[test]
fn distance_is_euclidean_and_rounded_down() {
    let origin = TilePos::new(0, 0);
    assert_eq!(distance(origin, origin), 0);
    assert_eq!(distance(origin, TilePos::new(3, 4)), 5);
    assert_eq!(distance(TilePos::new(3, 4), origin), 5);
    assert_eq!(distance(origin, TilePos::new(1, 1)), 1);
    assert_eq!(distance(origin, TilePos::new(2, 2)), 2);
    assert_eq!(distance(origin, TilePos::new(3, 3)), 4);
    assert_eq!(distance(TilePos::new(7, 2), TilePos::new(2, 9)), 8);
    assert_eq!(distance(TilePos::new(10, 10), TilePos::new(10, 3)), 7);
    // Farther than 32-bit arithmetic could tell.
    assert_eq!(distance(origin, TilePos::new(50_000, 50_000)), 70_710);
    assert_eq!(distance(origin, TilePos::new(u32::MAX, 0)), u32::MAX as u64);
    let corner = distance(origin, TilePos::new(u32::MAX, u32::MAX));
    assert_eq!(corner, 6_074_000_998);
    assert!(corner <= MAX_DISTANCE);
}

#[test]
fn nearest_goal_sets_the_distance() {
    let pos = TilePos::new(5, 5);
    assert_eq!(nearest(pos, &TileSet::new()), 0);
    assert_eq!(nearest(pos, &set_of(&[(5, 9)])), 4);
    assert_eq!(nearest(pos, &set_of(&[(0, 0), (5, 9), (8, 9)])), 4);
    assert_eq!(nearest(pos, &set_of(&[(5, 9), (6, 6), (0, 0)])), 1);
    assert_eq!(nearest(pos, &set_of(&[(9, 9), (5, 5)])), 0);

    let made = Tile::new(pos, &set_of(&[(0, 0), (8, 9)]));
    assert_eq!(made.pos, pos);
    assert_eq!(made.distance, 5);
    assert_eq!(Tile::new(pos, &TileSet::new()).distance, 0);
    let zero = Tile::zero(pos);
    assert_eq!(zero.pos, pos);
    assert_eq!(zero.distance, 0);
}

#[test]
fn neighbours_come_in_order() {
    let goals = set_of(&[(0, 0)]);
    let around = tile(3, 4, 5).neighbors(&goals);
    let expected = [tile(4, 4, 5), tile(2, 4, 4), tile(3, 5, 5), tile(3, 3, 4)];
    assert!(same(&around, &expected));

    // At the edges of the coordinate space a tile is its own neighbour.
    let around = tile(0, 0, 0).neighbors(&goals);
    let expected = [tile(1, 0, 1), tile(0, 0, 0), tile(0, 1, 1), tile(0, 0, 0)];
    assert!(same(&around, &expected));
    let far = TilePos::new(u32::MAX, u32::MAX);
    let around = far.neighbors();
    assert_eq!(around[0], far);
    assert_eq!(around[1], TilePos::new(u32::MAX - 1, u32::MAX));
    assert_eq!(around[2], far);
    assert_eq!(around[3], TilePos::new(u32::MAX, u32::MAX - 1));
}

#[test]
fn keys_tell_coordinates_apart() {
    assert_eq!(TilePos::new(0, 0).key(), 0);
    assert_eq!(TilePos::new(0, 7).key(), 7);
    assert_eq!(TilePos::new(1, 0).key(), 1 << 32);
    assert_eq!(TilePos::new(3, 5).key(), (3 << 32) + 5);
    assert_eq!(TilePos::new(u32::MAX, u32::MAX).key(), u64::MAX);
    assert_ne!(TilePos::new(1, 2).key(), TilePos::new(2, 1).key());
}

#[test]
fn tiles_are_equal_by_position_and_ordered_by_distance() {
    assert!(tile(1, 2, 3) == tile(1, 2, 9));
    assert!(tile(1, 2, 3) != tile(2, 1, 3));
    // The nearer tile is the greater.
    assert_eq!(tile(1, 2, 3).partial_cmp(&tile(5, 5, 9)), Some(Ordering::Greater));
    assert_eq!(tile(1, 2, 9).partial_cmp(&tile(5, 5, 3)), Some(Ordering::Less));
    assert_eq!(tile(1, 2, 3).partial_cmp(&tile(5, 5, 3)), Some(Ordering::Equal));
    assert!(tile(0, 0, 1) > tile(0, 0, 2));
    assert!(tile(0, 0, 2) < tile(9, 9, 1));
}

#[test]
fn tile_set_holds_each_coordinate_once() {
    let mut set = TileSet::new();
    assert!(set.is_empty());
    assert!(set.insert(TilePos::new(1, 1)));
    assert!(set.insert(TilePos::new(2, 2)));
    assert!(!set.insert(TilePos::new(1, 1)));
    assert!(set.insert(TilePos::new(3, 3)));
    assert_eq!(set.len(), 3);
    assert_eq!(set.position(TilePos::new(2, 2)), Some(1));
    assert_eq!(set.position(TilePos::new(9, 9)), None);
    assert!(set.contains(TilePos::new(3, 3)));

    assert!(set.remove(TilePos::new(1, 1)));
    assert!(!set.remove(TilePos::new(1, 1)));
    assert_eq!(set.len(), 2);
    // The others keep their order.
    assert_eq!(set.get(0), TilePos::new(2, 2));
    assert_eq!(set.get(1), TilePos::new(3, 3));
    assert!(!set.contains(TilePos::new(1, 1)));
    set.clear();
    assert!(set.is_empty());
    assert_eq!(set.len(), 0);
}

#[test]
fn grid_reads_and_writes_by_coordinate() {
    let mut grid = Grid::new(3, 2).unwrap();
    assert_eq!(grid.width(), 3);
    assert_eq!(grid.height(), 2);
    assert_eq!(TileState::default(), TileState::Empty);
    for x in 0..3 {
        for y in 0..2 {
            assert!(grid.in_bounds(TilePos::new(x, y)));
            assert_eq!(grid.get(TilePos::new(x, y)), Some(TileState::Empty));
        }
    }
    for pos in [TilePos::new(3, 0), TilePos::new(0, 2), TilePos::new(u32::MAX, u32::MAX)] {
        assert!(!grid.in_bounds(pos));
        assert_eq!(grid.get(pos), None);
        assert!(!grid.set(pos, TileState::Wall));
    }
    assert!(grid.set(TilePos::new(2, 1), TileState::Wall));
    assert!(grid.set(TilePos::new(1, 0), TileState::Queued(4)));
    for x in 0..3 {
        for y in 0..2 {
            let expected = match (x, y) {
                (2, 1) => TileState::Wall,
                (1, 0) => TileState::Queued(4),
                _ => TileState::Empty,
            };
            assert_eq!(grid.get(TilePos::new(x, y)), Some(expected));
        }
    }
    let empty = Grid::new(0, 5).unwrap();
    assert!(!empty.in_bounds(TilePos::new(0, 0)));
    let walls = Grid::filled(2, 2, TileState::Wall).unwrap();
    assert_eq!(walls.get(TilePos::new(1, 1)), Some(TileState::Wall));
}

#[test]
fn fill_and_flush_rewrite_the_grid() {
    let mut grid = Grid::new(4, 2).unwrap();
    let states = [
        TileState::Empty,
        TileState::Wall,
        TileState::Start,
        TileState::Goal,
        TileState::Queued(1),
        TileState::Visited(2),
        TileState::Final(3),
        TileState::Empty,
    ];
    let flushed = [
        TileState::Empty,
        TileState::Wall,
        TileState::Start,
        TileState::Goal,
        TileState::Empty,
        TileState::Empty,
        TileState::Empty,
        TileState::Empty,
    ];
    for (i, state) in states.iter().enumerate() {
        assert_eq!(state.written_by_search(), i >= 4 && i < 7);
        grid.set(TilePos::new(i as u32 % 4, i as u32 / 4), *state);
    }
    grid.flush();
    for (i, state) in flushed.iter().enumerate() {
        assert_eq!(grid.get(TilePos::new(i as u32 % 4, i as u32 / 4)), Some(*state));
    }
    generate_flat(&mut grid, TileState::Wall);
    for i in 0..8 {
        assert_eq!(grid.get(TilePos::new(i % 4, i / 4)), Some(TileState::Wall));
    }
    grid.fill(TileState::Goal);
    assert_eq!(grid.get(TilePos::new(3, 1)), Some(TileState::Goal));
}

#[test]
fn breadth_first_is_a_queue() {
    let mut frontier = BreadthFirst::default();
    assert!(frontier.next().is_none());
    for t in [tile(0, 0, 5), tile(1, 0, 1), tile(2, 0, 9)] {
        frontier.insert(t);
    }
    assert!(same(&drain(&mut frontier), &[tile(0, 0, 5), tile(1, 0, 1), tile(2, 0, 9)]));
    assert!(frontier.next().is_none());
}

#[test]
fn depth_first_is_a_stack() {
    let mut frontier = DepthFirst::default();
    assert!(frontier.next().is_none());
    for t in [tile(0, 0, 5), tile(1, 0, 1), tile(2, 0, 9)] {
        frontier.insert(t);
    }
    assert!(same(&drain(&mut frontier), &[tile(2, 0, 9), tile(1, 0, 1), tile(0, 0, 5)]));
}

#[test]
fn a_star_takes_the_nearest_and_of_equals_the_first() {
    let mut frontier = AStar::default();
    assert!(frontier.next().is_none());
    for t in [tile(0, 0, 5), tile(1, 0, 1), tile(2, 0, 9), tile(3, 0, 1), tile(4, 0, 5)] {
        frontier.insert(t);
    }
    let expected = [tile(1, 0, 1), tile(3, 0, 1), tile(0, 0, 5), tile(4, 0, 5), tile(2, 0, 9)];
    assert!(same(&drain(&mut frontier), &expected));
}

#[test]
fn reverse_a_star_takes_the_farthest_and_of_equals_the_first() {
    let mut frontier = ReverseAStar::default();
    assert!(frontier.next().is_none());
    for t in [tile(0, 0, 5), tile(1, 0, 1), tile(2, 0, 9), tile(3, 0, 1), tile(4, 0, 9)] {
        frontier.insert(t);
    }
    let expected = [tile(2, 0, 9), tile(4, 0, 9), tile(0, 0, 5), tile(1, 0, 1), tile(3, 0, 1)];
    assert!(same(&drain(&mut frontier), &expected));
}

#[test]
fn random_takes_the_tile_at_the_given_place() {
    let mut frontier = Random::default();
    assert!(frontier.take(Some(0)).is_none());
    assert!(frontier.next().is_none());
    for t in [tile(0, 0, 5), tile(1, 0, 1), tile(2, 0, 9), tile(3, 0, 4)] {
        frontier.insert(t);
    }
    assert!(frontier.take(None).is_none());
    assert!(frontier.take(Some(4)).is_none());
    assert!(same(&[frontier.take(Some(2)).unwrap()], &[tile(2, 0, 9)]));
    assert!(same(&[frontier.take(Some(2)).unwrap()], &[tile(3, 0, 4)]));
    assert!(same(&[frontier.take(Some(0)).unwrap()], &[tile(0, 0, 5)]));
    assert!(same(&drain(&mut frontier), &[tile(1, 0, 1)]));
}

#[test]
fn random_hands_out_every_tile_once() {
    let mut first = [0usize; 6];
    for _ in 0..300 {
        let mut frontier = Random::new();
        for x in 0..6 {
            frontier.insert(tile(x, 0, x as u64));
        }
        let order = drain(&mut frontier);
        assert_eq!(order.len(), 6);
        let mut seen = [false; 6];
        for t in &order {
            assert_eq!(t.distance, t.pos.x as u64);
            assert!(!seen[t.pos.x as usize]);
            seen[t.pos.x as usize] = true;
        }
        first[order[0].pos.x as usize] += 1;
    }
    // Each tile comes first now and then.
    assert!(first.iter().all(|&count| count > 0));
}

#[test]
fn frontier_goes_by_its_strategy() {
    let tiles = [tile(0, 0, 5), tile(1, 0, 1), tile(2, 0, 9), tile(3, 0, 1)];
    let cases = [
        (AlgorithmOption::BreadthFirst, [0, 1, 2, 3]),
        (AlgorithmOption::AStar, [1, 3, 0, 2]),
        (AlgorithmOption::ReverseAStar, [2, 0, 1, 3]),
        (AlgorithmOption::DepthFirst, [3, 2, 1, 0]),
    ];
    for (option, order) in cases {
        let expected: Vec<Tile> = order.iter().map(|&i| tiles[i]).collect();
        let mut frontier = Frontier::new(option);
        assert_eq!(frontier.strategy(), option);
        for t in tiles {
            frontier.insert(t);
        }
        assert!(same(&drain(&mut frontier), &expected));

        let mut frontier = Frontier::new(option);
        for t in tiles {
            frontier.insert(t);
        }
        let mut with = Vec::new();
        while let Some(t) = frontier.next_with(None) {
            with.push(t);
        }
        assert!(same(&with, &expected));
    }
    let mut frontier = Frontier::new(AlgorithmOption::Random);
    assert_eq!(frontier.strategy(), AlgorithmOption::Random);
    for t in tiles {
        frontier.insert(t);
    }
    assert!(frontier.next_with(None).is_none());
    assert!(same(&[frontier.next_with(Some(3)).unwrap()], &[tiles[3]]));
    assert!(same(&[frontier.next_with(Some(1)).unwrap()], &[tiles[1]]));
    assert_eq!(drain(&mut frontier).len(), 2);
}

#[test]
fn frontier_tells_whether_it_lies_on_a_grid() {
    let grid = Grid::new(3, 3).unwrap();
    for option in [
        AlgorithmOption::BreadthFirst,
        AlgorithmOption::AStar,
        AlgorithmOption::ReverseAStar,
        AlgorithmOption::DepthFirst,
        AlgorithmOption::Random,
    ] {
        let mut frontier = Frontier::new(option);
        assert!(frontier.lies_on(&grid));
        frontier.insert(tile(2, 2, 0));
        frontier.insert(tile(0, 1, 0));
        assert!(frontier.lies_on(&grid));
        frontier.insert(tile(3, 1, 0));
        assert!(!frontier.lies_on(&grid));
    }
}

fn door(open: bool) -> TileState {
    if open {
        TileState::Empty
    } else {
        TileState::Wall
    }
}

#[test]
fn carved_maze_follows_the_passages() {
    let maze = RbGenerator::new(Some([7; 32])).generate(4, 3).unwrap();
    let passage = |x: u32, y: u32, direction: Direction| {
        maze.get_field(&Coordinates::new(x as i32 / 2, y as i32 / 2))
            .unwrap()
            .has_passage(&direction)
    };
    let mut grid = Grid::filled(8, 6, TileState::Goal).unwrap();
    generate_flat(&mut grid, TileState::Empty);
    carve_maze(&mut grid, &maze);

    let mut walls = 0;
    let mut doors = 0;
    for x in 0..8u32 {
        for y in 0..6u32 {
            // Of the tiles that write to this one, the last in the order of
            // the columns and, within a column, of the rows has its way.
            let expected = match (x % 2 == 0, y % 2 == 0) {
                (false, false) => TileState::Wall,
                (false, true) => {
                    if x + 1 < 8 {
                        door(passage(x + 1, y, Direction::South))
                    } else {
                        door(passage(x - 1, y, Direction::North))
                    }
                },
                (true, false) => {
                    if y + 1 < 6 {
                        door(passage(x, y + 1, Direction::West))
                    } else {
                        door(passage(x, y - 1, Direction::East))
                    }
                },
                (true, true) => {
                    if y == 0 {
                        door(passage(x, y, Direction::West))
                    } else if x == 0 {
                        door(passage(x, y, Direction::South))
                    } else {
                        TileState::Empty
                    }
                },
            };
            assert_eq!(grid.get(TilePos::new(x, y)), Some(expected));
            if expected == TileState::Wall {
                walls += 1;
            } else {
                doors += 1;
            }
        }
    }
    assert!(walls >= 12);
    assert!(doors > 0);
}

#[test]
fn generated_maze_has_walls_at_odd_coordinates() {
    let mut grid = Grid::filled(9, 7, TileState::Start).unwrap();
    assert!(generate_maze(&mut grid));
    for x in 0..9u32 {
        for y in 0..7u32 {
            let state = grid.get(TilePos::new(x, y)).unwrap();
            assert!(state == TileState::Empty || state == TileState::Wall);
            if x % 2 == 1 && y % 2 == 1 {
                assert_eq!(state, TileState::Wall);
            }
            if x % 2 == 0 && y % 2 == 0 && x > 0 && y > 0 {
                assert_eq!(state, TileState::Empty);
            }
        }
    }
}

#[test]
fn maze_is_not_generated_for_a_grid_out_of_range() {
    let side = 2 * MAX_MAZE_SIDE + 1;
    let mut grid = Grid::filled(side, 2, TileState::Wall).unwrap();
    assert!(!generate_maze(&mut grid));
    assert_eq!(grid.get(TilePos::new(1, 1)), Some(TileState::Empty));
    assert_eq!(grid.get(TilePos::new(side - 1, 0)), Some(TileState::Empty));

    let mut grid = Grid::filled(0, 4, TileState::Wall).unwrap();
    assert!(!generate_maze(&mut grid));

    let mut grid = Grid::filled(2 * MAX_MAZE_SIDE, 1, TileState::Wall).unwrap();
    assert!(generate_maze(&mut grid));
}

#[test]
fn brush_paints_by_the_last_control() {
    assert_eq!(brush(false, false, false, false), None);
    assert_eq!(brush(true, false, false, false), Some(TileState::Wall));
    assert_eq!(brush(true, true, false, false), Some(TileState::Empty));
    assert_eq!(brush(false, true, false, false), Some(TileState::Empty));
    assert_eq!(brush(true, true, true, false), Some(TileState::Start));
    assert_eq!(brush(true, false, true, true), Some(TileState::Goal));
    assert_eq!(brush(false, false, false, true), Some(TileState::Goal));
}

#[test]
fn auto_tick_paces_the_steps() {
    assert_eq!(MAX_AUTO_SPEED, 20);
    assert_eq!(auto_tick(false, 20, 7), (0, false));
    // At full speed every tick is a step.
    assert_eq!(auto_tick(true, 20, 0), (0, true));
    // At speed 17 every third tick is a step.
    assert_eq!(auto_tick(true, 17, 0), (1, false));
    assert_eq!(auto_tick(true, 17, 1), (2, false));
    assert_eq!(auto_tick(true, 17, 2), (0, true));
    // At speed 0 every twentieth.
    assert_eq!(auto_tick(true, 0, 18), (19, false));
    assert_eq!(auto_tick(true, 0, 19), (0, true));
    let mut tick = 0;
    let mut steps = 0;
    for _ in 0..100 {
        let (next, step) = auto_tick(true, 15, tick);
        tick = next;
        if step {
            steps += 1;
        }
    }
    assert_eq!(steps, 20);
}
