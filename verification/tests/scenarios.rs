use path_finding::algorithm::AlgorithmOption;
use path_finding::generate::flush_path;
use path_finding::grid::{Grid, TileState};
use path_finding::pathfinder::{update_endpoints, Pathfinder};
use path_finding::position::TilePos;
use path_finding::search::Outcome;

fn paint(grid: &mut Grid, pathfinder: &mut Pathfinder, x: u32, y: u32, state: TileState) {
    let pos = TilePos::new(x, y);
    assert!(grid.set(pos, state));
    pathfinder.notify(pos, state);
}

fn step(grid: &mut Grid, pathfinder: &mut Pathfinder) -> Outcome {
    if !pathfinder.is_complete() {
        assert!(pathfinder.fits(grid));
        assert!(pathfinder.step_count() < usize::MAX);
    }
    pathfinder.step(grid)
}

fn run(grid: &mut Grid, pathfinder: &mut Pathfinder, limit: usize) -> Vec<Outcome> {
    let mut outcomes = Vec::new();
    for _ in 0..limit {
        outcomes.push(step(grid, pathfinder));
        if pathfinder.is_complete() {
            break;
        }
    }
    outcomes
}

fn snapshot(grid: &Grid) -> Vec<TileState> {
    let mut states = Vec::new();
    for x in 0..grid.width() {
        for y in 0..grid.height() {
            states.push(grid.get(TilePos::new(x, y)).unwrap());
        }
    }
    states
}

fn parents(grid: &Grid, pathfinder: &Pathfinder) -> Vec<Option<TilePos>> {
    let mut links = Vec::new();
    for x in 0..grid.width() {
        for y in 0..grid.height() {
            links.push(pathfinder.parent(TilePos::new(x, y)));
        }
    }
    links
}

fn count_final(grid: &Grid) -> usize {
    snapshot(grid).iter().filter(|state| matches!(state, TileState::Final(_))).count()
}

fn manhattan(a: TilePos, b: TilePos) -> u32 {
    a.x.abs_diff(b.x) + a.y.abs_diff(b.y)
}

fn taken(outcome: &Outcome) -> Option<TilePos> {
    match outcome {
        Outcome::Expanded(pos) | Outcome::Found(pos) => Some(*pos),
        _ => None,
    }
}

fn rank(state: TileState) -> u8 {
    match state {
        TileState::Queued(_) => 1,
        TileState::Visited(_) => 2,
        TileState::Final(_) => 3,
        _ => 0,
    }
}

fn open_grid(
    width: u32,
    height: u32,
    start: (u32, u32),
    goal: (u32, u32),
    option: AlgorithmOption,
) -> (Grid, Pathfinder) {
    let mut grid = Grid::new(width, height).unwrap();
    let mut pathfinder = Pathfinder::new();
    paint(&mut grid, &mut pathfinder, start.0, start.1, TileState::Start);
    paint(&mut grid, &mut pathfinder, goal.0, goal.1, TileState::Goal);
    pathfinder.restart(option);
    (grid, pathfinder)
}

const ALL: [AlgorithmOption; 5] = [
    AlgorithmOption::BreadthFirst,
    AlgorithmOption::AStar,
    AlgorithmOption::ReverseAStar,
    AlgorithmOption::DepthFirst,
    AlgorithmOption::Random,
];

#[test]
fn breadth_first_on_open_grid_marks_shortest_path() {
    let (mut grid, mut pathfinder) = open_grid(5, 5, (0, 0), (4, 4), AlgorithmOption::BreadthFirst);

    let outcomes = run(&mut grid, &mut pathfinder, 100);
    assert_eq!(outcomes.last(), Some(&Outcome::Found(TilePos::new(4, 4))));
    assert!(pathfinder.is_complete());
    // The goal is the farthest tile, so every tile is taken before it.
    assert_eq!(pathfinder.step_count(), 25);

    // The chain of parents from the goal to the start has nine tiles.
    let mut chain = vec![TilePos::new(4, 4)];
    while let Some(parent) = pathfinder.parent(*chain.last().unwrap()) {
        chain.push(parent);
    }
    assert_eq!(chain.len(), 9);
    assert_eq!(*chain.last().unwrap(), TilePos::new(0, 0));
    for pair in chain.windows(2) {
        assert_eq!(manhattan(pair[0], pair[1]), 1);
    }
    // The two ends keep their marks; the seven tiles between them are final.
    assert_eq!(grid.get(chain[0]), Some(TileState::Goal));
    assert_eq!(grid.get(chain[8]), Some(TileState::Start));
    for pos in &chain[1..8] {
        assert!(matches!(grid.get(*pos), Some(TileState::Final(_))));
    }
    assert_eq!(count_final(&grid), 7);
}

#[test]
fn breadth_first_reaches_an_adjacent_goal_in_two_steps() {
    let (mut grid, mut pathfinder) = open_grid(5, 5, (0, 0), (1, 0), AlgorithmOption::BreadthFirst);
    assert_eq!(step(&mut grid, &mut pathfinder), Outcome::Expanded(TilePos::new(0, 0)));
    assert_eq!(grid.get(TilePos::new(1, 0)), Some(TileState::Goal));
    assert_eq!(grid.get(TilePos::new(0, 1)), Some(TileState::Queued(1)));
    assert_eq!(step(&mut grid, &mut pathfinder), Outcome::Found(TilePos::new(1, 0)));
    assert_eq!(pathfinder.step_count(), 2);
    assert_eq!(count_final(&grid), 0);
}

#[test]
fn wall_column_leaves_no_path() {
    for option in ALL {
        let (mut grid, mut pathfinder) = open_grid(5, 5, (0, 2), (4, 2), option);
        for y in 0..5 {
            paint(&mut grid, &mut pathfinder, 2, y, TileState::Wall);
        }
        let outcomes = run(&mut grid, &mut pathfinder, 100);
        assert_eq!(outcomes.last(), Some(&Outcome::Exhausted));
        assert!(pathfinder.is_complete());
        // Ten tiles lie before the wall; the step that finds the frontier
        // empty is counted too.
        assert_eq!(pathfinder.step_count(), 11);
        assert_eq!(count_final(&grid), 0);
        for y in 0..5 {
            assert_eq!(grid.get(TilePos::new(2, y)), Some(TileState::Wall));
            assert!(pathfinder.has_visited(TilePos::new(2, y)));
            assert_eq!(pathfinder.parent(TilePos::new(2, y)), None);
            assert_eq!(grid.get(TilePos::new(3, y)), Some(TileState::Empty));
            assert!(!pathfinder.has_visited(TilePos::new(3, y)));
        }
    }
}

#[test]
fn moved_goal_changes_later_distances_only() {
    let (mut grid, mut pathfinder) = open_grid(7, 7, (3, 3), (6, 3), AlgorithmOption::AStar);
    assert_eq!(step(&mut grid, &mut pathfinder), Outcome::Expanded(TilePos::new(3, 3)));
    // Distances to the goal at (6, 3).
    assert_eq!(grid.get(TilePos::new(4, 3)), Some(TileState::Queued(2)));
    assert_eq!(grid.get(TilePos::new(2, 3)), Some(TileState::Queued(4)));
    assert_eq!(grid.get(TilePos::new(3, 4)), Some(TileState::Queued(3)));
    assert_eq!(grid.get(TilePos::new(3, 2)), Some(TileState::Queued(3)));

    // The goal moves to (0, 3).
    paint(&mut grid, &mut pathfinder, 6, 3, TileState::Empty);
    paint(&mut grid, &mut pathfinder, 0, 3, TileState::Goal);

    // The frontier still goes by the distance it stored: (4, 3) is taken
    // although (2, 3) is now the nearest.
    assert_eq!(step(&mut grid, &mut pathfinder), Outcome::Expanded(TilePos::new(4, 3)));
    assert_eq!(grid.get(TilePos::new(4, 3)), Some(TileState::Visited(2)));
    assert_eq!(grid.get(TilePos::new(2, 3)), Some(TileState::Queued(4)));
    // What is queued now carries the distance to the new goal.
    assert_eq!(grid.get(TilePos::new(5, 3)), Some(TileState::Queued(5)));
    assert_eq!(grid.get(TilePos::new(4, 4)), Some(TileState::Queued(4)));
    assert_eq!(grid.get(TilePos::new(4, 2)), Some(TileState::Queued(4)));
    // Of the stored distances 4, 3, 3, 5, 4, 4 the first least is taken.
    assert_eq!(step(&mut grid, &mut pathfinder), Outcome::Expanded(TilePos::new(3, 4)));
}

#[test]
fn steps_past_completion_change_nothing() {
    for option in ALL {
        let (mut grid, mut pathfinder) = open_grid(4, 3, (0, 0), (3, 2), option);
        run(&mut grid, &mut pathfinder, 100);
        assert!(pathfinder.is_complete());
        let steps = pathfinder.step_count();
        let states = snapshot(&grid);
        let links = parents(&grid, &pathfinder);
        for _ in 0..5 {
            assert_eq!(step(&mut grid, &mut pathfinder), Outcome::Idle);
            assert_eq!(pathfinder.step_with(&mut grid, Some(0), Some(0)), Outcome::Idle);
            assert!(pathfinder.is_complete());
            assert_eq!(pathfinder.step_count(), steps);
            assert_eq!(snapshot(&grid), states);
            assert_eq!(parents(&grid, &pathfinder), links);
        }
    }
}

#[test]
fn tiles_never_go_back() {
    for option in ALL {
        let (mut grid, mut pathfinder) = open_grid(6, 5, (1, 1), (5, 4), option);
        paint(&mut grid, &mut pathfinder, 3, 1, TileState::Wall);
        paint(&mut grid, &mut pathfinder, 3, 2, TileState::Wall);
        let mut before = snapshot(&grid);
        for _ in 0..100 {
            step(&mut grid, &mut pathfinder);
            let after = snapshot(&grid);
            for (old, new) in before.iter().zip(after.iter()) {
                assert!(rank(*new) >= rank(*old));
                match (*old, *new) {
                    (TileState::Empty, TileState::Empty) => {},
                    (TileState::Empty, TileState::Queued(_)) => {},
                    (TileState::Queued(a), TileState::Visited(b)) => assert_eq!(a, b),
                    (TileState::Visited(a), TileState::Final(b)) => assert_eq!(a, b),
                    (old, new) => assert_eq!(old, new),
                }
            }
            before = after;
        }
        assert!(pathfinder.is_complete());
    }
}

#[test]
fn no_tile_is_taken_twice() {
    for option in ALL {
        let (mut grid, mut pathfinder) = open_grid(6, 6, (2, 3), (5, 0), option);
        paint(&mut grid, &mut pathfinder, 4, 1, TileState::Wall);
        let outcomes = run(&mut grid, &mut pathfinder, 100);
        let mut seen: Vec<TilePos> = Vec::new();
        for outcome in &outcomes {
            if let Some(pos) = taken(outcome) {
                assert!(!seen.contains(&pos));
                assert!(pathfinder.has_visited(pos));
                seen.push(pos);
            }
        }
        assert_eq!(seen.len(), outcomes.len());
    }
}

#[test]
fn breadth_first_takes_tiles_by_distance() {
    let (mut grid, mut pathfinder) = open_grid(7, 6, (2, 3), (6, 0), AlgorithmOption::BreadthFirst);
    let outcomes = run(&mut grid, &mut pathfinder, 100);
    let origin = TilePos::new(2, 3);
    let mut last = 0;
    for outcome in &outcomes {
        let pos = taken(outcome).unwrap();
        let here = manhattan(origin, pos);
        assert!(here >= last);
        last = here;
    }
    assert_eq!(outcomes.last(), Some(&Outcome::Found(TilePos::new(6, 0))));
    assert_eq!(last, 7);
}

#[test]
fn a_star_needs_no_more_steps_than_breadth_first() {
    let cases = [
        (5, 5, (0, 0), (4, 4)),
        (5, 6, (0, 0), (4, 5)),
        (8, 8, (2, 2), (5, 6)),
        (9, 1, (8, 0), (0, 0)),
        (2, 9, (1, 8), (0, 0)),
        (6, 6, (3, 3), (3, 3)),
    ];
    for (width, height, start, goal) in cases {
        let (mut grid, mut pathfinder) = open_grid(width, height, start, goal, AlgorithmOption::AStar);
        if start == goal {
            // One tile cannot be both: the goal is painted last and wins.
            pathfinder.notify(TilePos::new(start.0, start.1), TileState::Start);
        }
        run(&mut grid, &mut pathfinder, 1000);
        let informed = pathfinder.step_count();

        let (mut grid, mut pathfinder) =
            open_grid(width, height, start, goal, AlgorithmOption::BreadthFirst);
        if start == goal {
            pathfinder.notify(TilePos::new(start.0, start.1), TileState::Start);
        }
        run(&mut grid, &mut pathfinder, 1000);
        let blind = pathfinder.step_count();
        assert!(informed <= blind);
    }

    let (mut grid, mut pathfinder) = open_grid(5, 6, (0, 0), (4, 5), AlgorithmOption::AStar);
    run(&mut grid, &mut pathfinder, 1000);
    assert_eq!(pathfinder.step_count(), 11);
    let (mut grid, mut pathfinder) = open_grid(5, 6, (0, 0), (4, 5), AlgorithmOption::BreadthFirst);
    run(&mut grid, &mut pathfinder, 1000);
    assert_eq!(pathfinder.step_count(), 30);
}

#[test]
fn found_path_walks_back_to_the_start() {
    for option in ALL {
        let (mut grid, mut pathfinder) = open_grid(6, 6, (0, 5), (5, 0), option);
        paint(&mut grid, &mut pathfinder, 2, 2, TileState::Wall);
        paint(&mut grid, &mut pathfinder, 2, 3, TileState::Wall);
        paint(&mut grid, &mut pathfinder, 3, 2, TileState::Wall);
        let outcomes = run(&mut grid, &mut pathfinder, 100);
        assert_eq!(outcomes.last(), Some(&Outcome::Found(TilePos::new(5, 0))));

        let mut chain = vec![TilePos::new(5, 0)];
        while let Some(parent) = pathfinder.parent(*chain.last().unwrap()) {
            assert!(!chain.contains(&parent));
            assert!(chain.len() <= 36);
            chain.push(parent);
        }
        assert_eq!(*chain.last().unwrap(), TilePos::new(0, 5));
        for pair in chain.windows(2) {
            assert_eq!(manhattan(pair[0], pair[1]), 1);
        }
        for pos in &chain[1..chain.len() - 1] {
            assert!(matches!(grid.get(*pos), Some(TileState::Final(_))));
        }
        assert_eq!(count_final(&grid), chain.len() - 2);
    }
}

#[test]
fn depth_first_follows_the_newest_tile() {
    let (mut grid, mut pathfinder) = open_grid(3, 3, (0, 0), (2, 2), AlgorithmOption::DepthFirst);
    let outcomes = run(&mut grid, &mut pathfinder, 100);
    let order: Vec<TilePos> = outcomes.iter().map(|outcome| taken(outcome).unwrap()).collect();
    // From (0, 0) the neighbours (1, 0) and (0, 1) are queued; the newer one
    // is followed, and so on. From (1, 2) only the goal is new: (1, 1) was
    // queued from (0, 1).
    assert_eq!(
        order,
        vec![
            TilePos::new(0, 0),
            TilePos::new(0, 1),
            TilePos::new(0, 2),
            TilePos::new(1, 2),
            TilePos::new(2, 2),
        ]
    );
}

#[test]
fn reverse_a_star_takes_the_farthest_tile() {
    let (mut grid, mut pathfinder) = open_grid(3, 3, (1, 1), (2, 2), AlgorithmOption::ReverseAStar);
    assert_eq!(step(&mut grid, &mut pathfinder), Outcome::Expanded(TilePos::new(1, 1)));
    // Queued: (2, 1) at 1, (0, 1) at 2, (1, 2) at 1, (1, 0) at 2.
    assert_eq!(step(&mut grid, &mut pathfinder), Outcome::Expanded(TilePos::new(0, 1)));
    // Queued now: (2, 1) at 1, (1, 2) at 1, (1, 0) at 2, (0, 2) at 2, (0, 0) at 2.
    assert_eq!(step(&mut grid, &mut pathfinder), Outcome::Expanded(TilePos::new(1, 0)));
}

#[test]
fn step_with_follows_the_given_choices() {
    let mut grid = Grid::new(3, 3).unwrap();
    let mut pathfinder = Pathfinder::new();
    paint(&mut grid, &mut pathfinder, 0, 0, TileState::Start);
    paint(&mut grid, &mut pathfinder, 2, 2, TileState::Start);
    paint(&mut grid, &mut pathfinder, 1, 1, TileState::Goal);
    pathfinder.restart(AlgorithmOption::Random);

    // The second start is the seed; it is the only tile in the frontier.
    assert_eq!(
        pathfinder.step_with(&mut grid, Some(1), Some(0)),
        Outcome::Expanded(TilePos::new(2, 2))
    );
    assert_eq!(grid.get(TilePos::new(2, 2)), Some(TileState::Start));
    // Queued: (1, 2) and (2, 1), each one step from the goal.
    assert_eq!(grid.get(TilePos::new(1, 2)), Some(TileState::Queued(1)));
    assert_eq!(grid.get(TilePos::new(2, 1)), Some(TileState::Queued(1)));
    assert_eq!(pathfinder.parent(TilePos::new(2, 1)), Some(TilePos::new(2, 2)));
    assert_eq!(
        pathfinder.step_with(&mut grid, None, Some(1)),
        Outcome::Expanded(TilePos::new(2, 1))
    );
    assert_eq!(grid.get(TilePos::new(2, 1)), Some(TileState::Visited(1)));
    // The frontier holds (1, 2), (1, 1), (2, 0).
    assert_eq!(
        pathfinder.step_with(&mut grid, None, Some(1)),
        Outcome::Found(TilePos::new(1, 1))
    );
    assert_eq!(grid.get(TilePos::new(2, 1)), Some(TileState::Final(1)));
    assert_eq!(grid.get(TilePos::new(1, 1)), Some(TileState::Goal));
    assert_eq!(pathfinder.step_count(), 3);
}

#[test]
fn random_search_without_a_choice_is_exhausted() {
    let (mut grid, mut pathfinder) = open_grid(3, 3, (0, 0), (2, 2), AlgorithmOption::Random);
    // No tile is named, so none is taken, though the seed waits.
    assert_eq!(pathfinder.step_with(&mut grid, Some(0), None), Outcome::Exhausted);
    assert!(pathfinder.is_complete());
    assert_eq!(pathfinder.step_count(), 1);

    let (mut grid, mut pathfinder) = open_grid(3, 3, (0, 0), (2, 2), AlgorithmOption::Random);
    assert_eq!(pathfinder.step_with(&mut grid, Some(0), Some(7)), Outcome::Exhausted);
}

#[test]
fn random_search_finds_the_goal() {
    for _ in 0..20 {
        let (mut grid, mut pathfinder) = open_grid(4, 4, (0, 0), (3, 3), AlgorithmOption::Random);
        let outcomes = run(&mut grid, &mut pathfinder, 100);
        assert_eq!(outcomes.last(), Some(&Outcome::Found(TilePos::new(3, 3))));
        assert!(outcomes.len() >= 7);
        assert!(outcomes.len() <= 16);
    }
}

#[test]
fn a_start_is_picked_among_several() {
    let mut first = 0;
    let mut second = 0;
    for _ in 0..200 {
        let mut grid = Grid::new(4, 1).unwrap();
        let mut pathfinder = Pathfinder::new();
        paint(&mut grid, &mut pathfinder, 0, 0, TileState::Start);
        paint(&mut grid, &mut pathfinder, 3, 0, TileState::Start);
        match step(&mut grid, &mut pathfinder) {
            Outcome::Expanded(pos) if pos == TilePos::new(0, 0) => first += 1,
            Outcome::Expanded(pos) if pos == TilePos::new(3, 0) => second += 1,
            other => panic!("{:?}", other),
        }
    }
    assert_eq!(first + second, 200);
    assert!(first > 0);
    assert!(second > 0);
}

#[test]
fn search_without_a_start_is_exhausted_at_once() {
    for option in ALL {
        let mut grid = Grid::new(3, 3).unwrap();
        let mut pathfinder = Pathfinder::new();
        paint(&mut grid, &mut pathfinder, 2, 2, TileState::Goal);
        pathfinder.restart(option);
        let states = snapshot(&grid);
        assert_eq!(step(&mut grid, &mut pathfinder), Outcome::Exhausted);
        assert!(pathfinder.is_complete());
        assert_eq!(pathfinder.step_count(), 1);
        assert_eq!(snapshot(&grid), states);
    }
}

#[test]
fn search_without_a_goal_visits_everything() {
    let mut grid = Grid::new(3, 2).unwrap();
    let mut pathfinder = Pathfinder::new();
    paint(&mut grid, &mut pathfinder, 1, 0, TileState::Start);
    let outcomes = run(&mut grid, &mut pathfinder, 100);
    assert_eq!(outcomes.len(), 7);
    assert_eq!(outcomes.last(), Some(&Outcome::Exhausted));
    // Without a goal every distance is 0.
    for x in 0..3 {
        for y in 0..2 {
            let expected = if (x, y) == (1, 0) { TileState::Start } else { TileState::Visited(0) };
            assert_eq!(grid.get(TilePos::new(x, y)), Some(expected));
        }
    }
    // The coordinates beyond the edge were looked at and are remembered.
    assert!(pathfinder.has_visited(TilePos::new(3, 0)));
    assert!(pathfinder.has_visited(TilePos::new(1, 2)));
    assert_eq!(pathfinder.parent(TilePos::new(3, 0)), None);
}

#[test]
fn restart_and_stop_reset_the_search() {
    let (mut grid, mut pathfinder) = open_grid(4, 4, (0, 0), (3, 3), AlgorithmOption::BreadthFirst);
    assert_eq!(pathfinder.strategy(), AlgorithmOption::BreadthFirst);
    for _ in 0..3 {
        step(&mut grid, &mut pathfinder);
    }
    assert_eq!(pathfinder.step_count(), 3);
    assert!(pathfinder.has_visited(TilePos::new(0, 0)));
    assert_eq!(pathfinder.parent(TilePos::new(1, 0)), Some(TilePos::new(0, 0)));
    let states = snapshot(&grid);

    pathfinder.restart(AlgorithmOption::DepthFirst);
    assert_eq!(pathfinder.strategy(), AlgorithmOption::DepthFirst);
    assert_eq!(pathfinder.step_count(), 0);
    assert!(!pathfinder.is_complete());
    assert!(!pathfinder.has_visited(TilePos::new(0, 0)));
    assert_eq!(pathfinder.parent(TilePos::new(1, 0)), None);
    // The starts and goals stay, and the grid keeps its colours.
    assert!(pathfinder.start_tiles().contains(TilePos::new(0, 0)));
    assert!(pathfinder.goal_tiles().contains(TilePos::new(3, 3)));
    assert_eq!(snapshot(&grid), states);

    // A restarted search runs again, over the stale colours.
    let outcomes = run(&mut grid, &mut pathfinder, 100);
    assert_eq!(outcomes.last(), Some(&Outcome::Found(TilePos::new(3, 3))));

    pathfinder.stop(AlgorithmOption::AStar);
    assert_eq!(pathfinder.strategy(), AlgorithmOption::AStar);
    assert_eq!(pathfinder.step_count(), 0);
    assert!(pathfinder.is_complete());
    assert!(!pathfinder.has_visited(TilePos::new(0, 0)));
    assert_eq!(step(&mut grid, &mut pathfinder), Outcome::Idle);
    assert_eq!(pathfinder.step_count(), 0);
}

#[test]
fn default_pathfinder_is_breadth_first_and_idle() {
    let pathfinder = Pathfinder::default();
    assert_eq!(pathfinder.strategy(), AlgorithmOption::BreadthFirst);
    assert_eq!(AlgorithmOption::default(), AlgorithmOption::BreadthFirst);
    assert_eq!(pathfinder.step_count(), 0);
    assert!(!pathfinder.is_complete());
    assert!(pathfinder.start_tiles().is_empty());
    assert!(pathfinder.goal_tiles().is_empty());
}

#[test]
fn endpoint_tracker_follows_the_changes() {
    let mut pathfinder = Pathfinder::new();
    let a = TilePos::new(1, 1);
    let b = TilePos::new(2, 2);
    let c = TilePos::new(3, 3);
    update_endpoints(
        &mut pathfinder,
        &[(a, TileState::Start), (b, TileState::Goal), (c, TileState::Start)],
    );
    assert_eq!(pathfinder.start_tiles().len(), 2);
    assert_eq!(pathfinder.start_tiles().get(0), a);
    assert_eq!(pathfinder.start_tiles().get(1), c);
    assert_eq!(pathfinder.goal_tiles().len(), 1);
    assert!(pathfinder.goal_tiles().contains(b));

    // A start becomes a goal, a goal a wall, and a start is reported again.
    update_endpoints(
        &mut pathfinder,
        &[(a, TileState::Goal), (b, TileState::Wall), (c, TileState::Start)],
    );
    assert_eq!(pathfinder.start_tiles().len(), 1);
    assert!(pathfinder.start_tiles().contains(c));
    assert!(!pathfinder.start_tiles().contains(a));
    assert_eq!(pathfinder.goal_tiles().len(), 1);
    assert!(pathfinder.goal_tiles().contains(a));
    assert!(!pathfinder.goal_tiles().contains(b));

    for state in [
        TileState::Empty,
        TileState::Queued(3),
        TileState::Visited(3),
        TileState::Final(3),
    ] {
        pathfinder.notify(c, TileState::Start);
        pathfinder.notify(c, state);
        assert!(!pathfinder.start_tiles().contains(c));
        assert!(!pathfinder.goal_tiles().contains(c));
    }
    update_endpoints(&mut pathfinder, &[]);
    assert_eq!(pathfinder.goal_tiles().len(), 1);
}

#[test]
fn fits_tells_whether_the_search_lies_on_the_grid() {
    let mut small = Grid::new(3, 3).unwrap();
    let mut large = Grid::new(6, 6).unwrap();
    let mut pathfinder = Pathfinder::new();
    pathfinder.notify(TilePos::new(4, 4), TileState::Start);
    assert!(!pathfinder.fits(&small));
    assert!(pathfinder.fits(&large));
    assert!(large.set(TilePos::new(4, 4), TileState::Start));
    assert_eq!(pathfinder.step(&mut large), Outcome::Expanded(TilePos::new(4, 4)));
    assert!(pathfinder.fits(&large));
    // Tiles of the frontier lie beyond the small grid.
    pathfinder.notify(TilePos::new(4, 4), TileState::Empty);
    assert!(!pathfinder.fits(&small));
    assert!(!small.set(TilePos::new(4, 4), TileState::Start));
}

#[test]
fn flush_wipes_the_trail_and_the_links() {
    let (mut grid, mut pathfinder) = open_grid(4, 4, (0, 0), (3, 3), AlgorithmOption::BreadthFirst);
    paint(&mut grid, &mut pathfinder, 1, 1, TileState::Wall);
    run(&mut grid, &mut pathfinder, 100);
    assert!(count_final(&grid) > 0);
    assert!(pathfinder.parent(TilePos::new(3, 3)).is_some());
    let steps = pathfinder.step_count();

    flush_path(&mut grid, &mut pathfinder);
    for x in 0..4 {
        for y in 0..4 {
            let expected = match (x, y) {
                (0, 0) => TileState::Start,
                (3, 3) => TileState::Goal,
                (1, 1) => TileState::Wall,
                _ => TileState::Empty,
            };
            assert_eq!(grid.get(TilePos::new(x, y)), Some(expected));
            assert_eq!(pathfinder.parent(TilePos::new(x, y)), None);
        }
    }
    // The search itself is as it was.
    assert!(pathfinder.is_complete());
    assert_eq!(pathfinder.step_count(), steps);
    assert!(pathfinder.has_visited(TilePos::new(3, 3)));
}

#[test]
fn tiles_at_the_edge_are_their_own_neighbours() {
    let (mut grid, mut pathfinder) = open_grid(2, 2, (0, 0), (1, 1), AlgorithmOption::BreadthFirst);
    assert_eq!(step(&mut grid, &mut pathfinder), Outcome::Expanded(TilePos::new(0, 0)));
    // The start is not queued again, and it is no parent of itself.
    assert_eq!(grid.get(TilePos::new(0, 0)), Some(TileState::Start));
    assert_eq!(pathfinder.parent(TilePos::new(0, 0)), None);
    assert_eq!(step(&mut grid, &mut pathfinder), Outcome::Expanded(TilePos::new(1, 0)));
    assert_eq!(step(&mut grid, &mut pathfinder), Outcome::Expanded(TilePos::new(0, 1)));
    assert_eq!(step(&mut grid, &mut pathfinder), Outcome::Found(TilePos::new(1, 1)));
    assert_eq!(pathfinder.parent(TilePos::new(1, 1)), Some(TilePos::new(1, 0)));
    assert_eq!(grid.get(TilePos::new(1, 0)), Some(TileState::Final(1)));
    assert_eq!(grid.get(TilePos::new(0, 1)), Some(TileState::Visited(1)));
}

#[test]
fn try_step_refuses_a_search_off_the_grid() {
    let mut small = Grid::new(2, 2).unwrap();
    let mut pathfinder = Pathfinder::new();
    pathfinder.notify(TilePos::new(5, 5), TileState::Start);
    let states = snapshot(&small);
    assert_eq!(pathfinder.try_step(&mut small), None);
    assert_eq!(pathfinder.step_count(), 0);
    assert!(!pathfinder.is_complete());
    assert_eq!(snapshot(&small), states);

    let mut large = Grid::new(8, 8).unwrap();
    assert_eq!(
        pathfinder.try_step(&mut large),
        Some(Outcome::Expanded(TilePos::new(5, 5)))
    );
    pathfinder.stop(AlgorithmOption::BreadthFirst);
    // A complete search is idle on any grid.
    assert_eq!(pathfinder.try_step(&mut small), Some(Outcome::Idle));
}
