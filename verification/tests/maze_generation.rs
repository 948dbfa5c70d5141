use wilson_maze::error::MazeError;
use wilson_maze::maze_generator::{
    all_on_grid, direction_from_draw, loop_erased_path, mazify, random_walk, step_within,
    Direction, WalkStep,
};
use wilson_maze::model::cell::{positions_touch, Position};
use wilson_maze::model::grid::Grid;
use wilson_maze::random::{RandomSource, ScriptedRandom, ThreadRandom};

fn at(x: usize, y: usize) -> Position {
    Position { x, y }
}

const LEFT: usize = 0;
const UP: usize = 1;
const RIGHT: usize = 2;
const DOWN: usize = 3;

/// A long list of numbers that is the same on every run.
fn fixed_draws(seed: u64, count: usize) -> Vec<usize> {
    let mut state = seed;
    let mut draws = Vec::new();
    for _ in 0..count {
        state = state
            .wrapping_mul(6364136223846793005)
            .wrapping_add(1442695040888963407);
        draws.push((state >> 33) as usize);
    }
    draws
}

/// The cells that can be reached from `from` through passages.
fn reached_from(grid: &Grid, from: Position) -> Vec<Position> {
    let mut seen = vec![from];
    let mut queue = vec![from];
    while !queue.is_empty() {
        let here = queue.remove(0);
        for next in grid.get_neighbors_of_pos(here) {
            if !seen.contains(&next) {
                seen.push(next);
                queue.push(next);
            }
        }
    }
    seen
}

fn assert_spanning_tree(grid: &Grid) {
    let (columns, rows) = grid.get_number_of_cells_x_y();
    let cells = columns as usize * rows as usize;
    assert_eq!(grid.passage_count(), cells as u64 - 1);
    for from in grid.get_cells_positions() {
        assert_eq!(reached_from(grid, from).len(), cells);
    }
}

#[test]
fn draws_stand_for_left_up_right_down() {
    assert_eq!(direction_from_draw(0), Direction::Left);
    assert_eq!(direction_from_draw(1), Direction::Up);
    assert_eq!(direction_from_draw(2), Direction::Right);
    assert_eq!(direction_from_draw(3), Direction::Down);
}

#[test]
fn step_within_moves_one_cell_or_refuses() {
    let grid = Grid::new(3, 2).unwrap();
    assert_eq!(step_within(at(1, 0), Direction::Left, &grid), Some(at(0, 0)));
    assert_eq!(step_within(at(1, 0), Direction::Right, &grid), Some(at(2, 0)));
    assert_eq!(step_within(at(1, 0), Direction::Down, &grid), Some(at(1, 1)));
    assert_eq!(step_within(at(1, 1), Direction::Up, &grid), Some(at(1, 0)));
    assert_eq!(step_within(at(0, 0), Direction::Left, &grid), None);
    assert_eq!(step_within(at(0, 0), Direction::Up, &grid), None);
    assert_eq!(step_within(at(2, 1), Direction::Right, &grid), None);
    assert_eq!(step_within(at(2, 1), Direction::Down, &grid), None);
    assert_eq!(step_within(at(3, 0), Direction::Left, &grid), Some(at(2, 0)));
    assert_eq!(step_within(at(9, 9), Direction::Left, &grid), None);
    assert_eq!(
        step_within(at(usize::MAX, 0), Direction::Right, &grid),
        None
    );
}

#[test]
fn walk_step_leads_into_the_cell_it_points_at() {
    let step = WalkStep {
        cell_position: at(1, 1),
        move_direction: Direction::Down,
    };
    assert!(step.leads_into(at(1, 2)));
    assert!(!step.leads_into(at(1, 0)));
    assert!(!step.leads_into(at(2, 1)));
    let edge = WalkStep {
        cell_position: at(0, 0),
        move_direction: Direction::Left,
    };
    assert!(!edge.leads_into(at(0, 0)));
    assert!(!edge.leads_into(at(usize::MAX, 0)));
}

#[test]
fn all_on_grid_looks_at_every_position() {
    let grid = Grid::new(2, 2).unwrap();
    assert!(all_on_grid(&grid, &vec![]));
    assert!(all_on_grid(&grid, &vec![at(0, 0), at(1, 1)]));
    assert!(!all_on_grid(&grid, &vec![at(0, 0), at(2, 1)]));
}

#[test]
fn scripted_source_hands_out_its_list_then_runs_dry() {
    let mut source = ScriptedRandom::new(vec![7, 2, 10]);
    assert_eq!(source.next_below(4), Some(3));
    assert_eq!(source.next_below(4), Some(2));
    assert_eq!(source.next_below(3), Some(1));
    assert_eq!(source.next_below(4), None);
    assert_eq!(source.next_below(1), None);
}

#[test]
fn thread_source_stays_below_the_bound_and_within_its_budget() {
    let mut source = ThreadRandom::new(200);
    for bound in 1..=200usize {
        let draw = source.next_below(bound).unwrap();
        assert!(draw < bound);
    }
    assert_eq!(source.next_below(5), None);
    assert_eq!(source.next_below(5), None);
}

#[test]
fn random_walk_needs_a_visited_cell() {
    let grid = Grid::new(3, 3).unwrap();
    let mut source = ScriptedRandom::new(vec![RIGHT, DOWN]);
    let outcome = random_walk(at(0, 0), &grid, &vec![], &mut source);
    assert!(matches!(outcome, Err(MazeError::EmptyVisitedSet)));
    assert_eq!(source.next_below(4), Some(RIGHT));
}

#[test]
fn random_walk_refuses_positions_off_the_grid() {
    let grid = Grid::new(3, 3).unwrap();
    let mut source = ScriptedRandom::new(vec![RIGHT, DOWN]);
    let outcome = random_walk(at(3, 0), &grid, &vec![at(1, 1)], &mut source);
    assert!(matches!(outcome, Err(MazeError::InvalidPosition)));
    let outcome = random_walk(at(0, 0), &grid, &vec![at(1, 1), at(0, 3)], &mut source);
    assert!(matches!(outcome, Err(MazeError::InvalidPosition)));
    let outcome = random_walk(at(3, 3), &grid, &vec![], &mut source);
    assert!(matches!(outcome, Err(MazeError::EmptyVisitedSet)));
    assert_eq!(source.next_below(4), Some(RIGHT));
}

#[test]
fn random_walk_follows_the_draws_and_stops_on_the_first_visited_cell() {
    let grid = Grid::new(3, 3).unwrap();
    let visited = vec![at(2, 2)];
    let mut source = ScriptedRandom::new(vec![
        LEFT, UP, RIGHT, DOWN, LEFT, UP, RIGHT, RIGHT, DOWN, DOWN, LEFT,
    ]);
    let path = random_walk(at(0, 0), &grid, &visited, &mut source).unwrap();
    assert_eq!(
        path.get_cells_positions(),
        vec![
            at(0, 0),
            at(1, 0),
            at(1, 1),
            at(0, 1),
            at(0, 0),
            at(1, 0),
            at(2, 0),
            at(2, 1),
            at(2, 2)
        ]
    );
    assert_eq!(path.length(), 9);
    let steps = path.get_cell_wrappers();
    assert_eq!(steps[0].move_direction, Direction::Right);
    assert_eq!(steps[1].move_direction, Direction::Down);
    assert_eq!(steps[2].move_direction, Direction::Left);
    assert_eq!(steps[3].move_direction, Direction::Up);
    assert_eq!(steps[7].move_direction, Direction::Down);
    assert_eq!(steps[8].move_direction, Direction::Up);
    assert_eq!(source.next_below(4), Some(LEFT));
    assert_eq!(source.next_below(4), None);
}

#[test]
fn random_walk_draws_again_at_the_edge_without_moving() {
    let grid = Grid::new(2, 1).unwrap();
    let visited = vec![at(1, 0)];
    let mut source = ScriptedRandom::new(vec![UP, DOWN, LEFT, UP, RIGHT]);
    let path = random_walk(at(0, 0), &grid, &visited, &mut source).unwrap();
    assert_eq!(path.get_cells_positions(), vec![at(0, 0), at(1, 0)]);
    assert_eq!(path.get_cell_wrappers()[0].move_direction, Direction::Right);
    assert_eq!(source.next_below(4), None);
}

#[test]
fn random_walk_takes_a_step_even_from_a_visited_cell() {
    let grid = Grid::new(3, 1).unwrap();
    let visited = vec![at(0, 0), at(2, 0)];
    let mut source = ScriptedRandom::new(vec![RIGHT, RIGHT]);
    let path = random_walk(at(0, 0), &grid, &visited, &mut source).unwrap();
    assert_eq!(
        path.get_cells_positions(),
        vec![at(0, 0), at(1, 0), at(2, 0)]
    );
}

#[test]
fn random_walk_gives_up_when_the_draws_run_out() {
    let grid = Grid::new(3, 3).unwrap();
    let visited = vec![at(2, 2)];
    let mut source = ScriptedRandom::new(vec![RIGHT, DOWN, LEFT]);
    let outcome = random_walk(at(0, 0), &grid, &visited, &mut source);
    assert!(matches!(outcome, Err(MazeError::RandomnessExhausted)));
    assert_eq!(source.next_below(4), None);
}

#[test]
fn random_walk_with_the_thread_source_ends_on_a_visited_cell() {
    let grid = Grid::new(6, 5).unwrap();
    let visited = vec![at(5, 4), at(0, 4)];
    for _ in 0..20 {
        let mut source = ThreadRandom::new(1_000_000);
        let path = random_walk(at(2, 0), &grid, &visited, &mut source).unwrap();
        let cells = path.get_cells_positions();
        assert!(cells.len() >= 2);
        assert_eq!(cells[0], at(2, 0));
        assert!(visited.contains(cells.last().unwrap()));
        for (i, cell) in cells.iter().enumerate() {
            assert!(grid.has_position(*cell));
            if i >= 1 && i + 1 < cells.len() {
                assert!(!visited.contains(cell));
            }
            if i + 1 < cells.len() {
                assert!(positions_touch(*cell, cells[i + 1]));
                assert!(path.get_cell_wrappers()[i].leads_into(cells[i + 1]));
            }
        }
    }
}

#[test]
fn loop_erased_path_cuts_the_loop_out() {
    let grid = Grid::new(3, 3).unwrap();
    let visited = vec![at(2, 2)];
    let mut source = ScriptedRandom::new(vec![
        RIGHT, DOWN, LEFT, UP, RIGHT, RIGHT, DOWN, DOWN,
    ]);
    let path = random_walk(at(0, 0), &grid, &visited, &mut source).unwrap();
    let erased = loop_erased_path(&path);
    assert_eq!(
        erased.get_cells_positions(),
        vec![at(0, 0), at(1, 0), at(2, 0), at(2, 1), at(2, 2)]
    );
    let steps = erased.get_cell_wrappers();
    assert_eq!(steps[0].move_direction, Direction::Right);
    assert_eq!(steps[1].move_direction, Direction::Right);
    assert_eq!(steps[2].move_direction, Direction::Down);
    assert_eq!(steps[3].move_direction, Direction::Down);
    assert_eq!(steps[4], *path.get_cell_wrappers().last().unwrap());
}

#[test]
fn loop_erased_path_keeps_a_walk_without_loops() {
    let grid = Grid::new(3, 1).unwrap();
    let visited = vec![at(2, 0)];
    let mut source = ScriptedRandom::new(vec![RIGHT, RIGHT]);
    let path = random_walk(at(0, 0), &grid, &visited, &mut source).unwrap();
    let erased = loop_erased_path(&path);
    assert_eq!(erased.get_cells_positions(), path.get_cells_positions());
    assert_eq!(erased.length(), 3);
}

#[test]
fn loop_erased_path_cuts_a_loop_in_the_middle() {
    let grid = Grid::new(4, 2).unwrap();
    let visited = vec![at(3, 0)];
    let mut source = ScriptedRandom::new(vec![
        RIGHT, DOWN, RIGHT, UP, LEFT, RIGHT, RIGHT,
    ]);
    let path = random_walk(at(0, 0), &grid, &visited, &mut source).unwrap();
    assert_eq!(
        path.get_cells_positions(),
        vec![
            at(0, 0),
            at(1, 0),
            at(1, 1),
            at(2, 1),
            at(2, 0),
            at(1, 0),
            at(2, 0),
            at(3, 0)
        ]
    );
    let erased = loop_erased_path(&path);
    assert_eq!(
        erased.get_cells_positions(),
        vec![at(0, 0), at(1, 0), at(1, 1), at(2, 1), at(2, 0), at(3, 0)]
    );
}

#[test]
fn loop_erased_path_of_a_walk_back_to_its_start_is_one_cell() {
    let grid = Grid::new(2, 2).unwrap();
    let visited = vec![at(0, 0)];
    let mut source = ScriptedRandom::new(vec![RIGHT, DOWN, LEFT, UP]);
    let path = random_walk(at(0, 0), &grid, &visited, &mut source).unwrap();
    assert_eq!(path.length(), 5);
    let erased = loop_erased_path(&path);
    assert_eq!(erased.get_cells_positions(), vec![at(0, 0)]);
}

#[test]
fn loop_erased_path_never_repeats_a_cell() {
    let grid = Grid::new(5, 5).unwrap();
    let visited = vec![at(4, 4)];
    for seed in 0..40u64 {
        let mut source = ScriptedRandom::new(fixed_draws(seed, 20_000));
        let path = random_walk(at(0, 0), &grid, &visited, &mut source).unwrap();
        let erased = loop_erased_path(&path);
        let cells = erased.get_cells_positions();
        assert_eq!(cells[0], path.get_cells_positions()[0]);
        assert_eq!(cells.last(), path.get_cells_positions().last());
        for i in 0..cells.len() {
            for j in 0..i {
                assert_ne!(cells[i], cells[j]);
            }
            if i + 1 < cells.len() {
                assert!(positions_touch(cells[i], cells[i + 1]));
            }
        }
        let clone = erased.clone();
        assert_eq!(clone.get_cells_positions(), cells);
    }
}

#[test]
fn mazify_two_cells_opens_the_one_passage() {
    let mut grid = Grid::new(2, 1).unwrap();
    let mut source = ThreadRandom::new(1_000_000);
    let internals = mazify(&mut grid, &mut source).unwrap();
    assert_eq!(grid.passage_count(), 1);
    assert!(grid.are_neighbors(at(0, 0), at(1, 0)));
    assert!(grid.are_neighbors(at(1, 0), at(0, 0)));
    assert_eq!(internals.get_paths().len(), 1);
}

#[test]
fn mazify_three_by_three_with_fixed_draws_is_a_spanning_tree() {
    let mut grid = Grid::new(3, 3).unwrap();
    let mut source = ScriptedRandom::new(fixed_draws(2024, 100_000));
    mazify(&mut grid, &mut source).unwrap();
    assert_eq!(grid.passage_count(), 8);
    for from in grid.get_cells_positions() {
        let reached = reached_from(&grid, from);
        assert_eq!(reached.len(), 9);
        for cell in grid.get_cells_positions() {
            assert!(reached.contains(&cell));
        }
    }
}

#[test]
fn mazify_gives_the_same_maze_for_the_same_draws() {
    let mut first = Grid::new(4, 4).unwrap();
    let mut second = Grid::new(4, 4).unwrap();
    mazify(&mut first, &mut ScriptedRandom::new(fixed_draws(7, 100_000))).unwrap();
    mazify(&mut second, &mut ScriptedRandom::new(fixed_draws(7, 100_000))).unwrap();
    assert_eq!(first.get_neighbors(), second.get_neighbors());
}

#[test]
fn mazify_follows_the_script() {
    let mut grid = Grid::new(2, 2).unwrap();
    // Root: the cell at place 3. Then the cell at place 0 walks right and
    // down onto the root, and the cell left over walks up onto the maze.
    let mut source = ScriptedRandom::new(vec![3, 0, RIGHT, DOWN, 0, UP, RIGHT]);
    let internals = mazify(&mut grid, &mut source).unwrap();
    assert_eq!(grid.passage_count(), 3);
    assert!(grid.are_neighbors(at(0, 0), at(1, 0)));
    assert!(grid.are_neighbors(at(1, 0), at(1, 1)));
    assert!(grid.are_neighbors(at(0, 1), at(0, 0)));
    assert!(!grid.are_neighbors(at(0, 1), at(1, 1)));
    assert_eq!(grid.get_neighbors_of_pos(at(1, 0)), vec![at(1, 1), at(0, 0)]);
    assert_eq!(grid.get_neighbors_of_pos(at(0, 0)), vec![at(1, 0), at(0, 1)]);
    assert_eq!(grid.get_neighbors_of_pos(at(1, 1)), vec![at(1, 0)]);
    assert_eq!(grid.get_neighbors_of_pos(at(0, 1)), vec![at(0, 0)]);
    let paths = internals.get_paths();
    assert_eq!(paths.len(), 2);
    assert_eq!(
        paths[0].0.get_cells_positions(),
        vec![at(0, 0), at(1, 0), at(1, 1)]
    );
    assert_eq!(
        paths[0].1.get_cells_positions(),
        vec![at(0, 0), at(1, 0), at(1, 1)]
    );
    assert_eq!(paths[0].2.passage_count(), 2);
    assert_eq!(
        paths[1].0.get_cells_positions(),
        vec![at(0, 1), at(0, 0)]
    );
    assert_eq!(paths[1].2.passage_count(), 3);
    assert_eq!(source.next_below(4), Some(RIGHT));
}

#[test]
fn mazify_on_one_cell_opens_nothing() {
    let mut grid = Grid::new(1, 1).unwrap();
    let mut source = ScriptedRandom::new(vec![5]);
    let internals = mazify(&mut grid, &mut source).unwrap();
    assert_eq!(grid.passage_count(), 0);
    assert!(internals.get_paths().is_empty());
}

#[test]
fn mazify_refuses_a_grid_with_passages() {
    let mut grid = Grid::new(3, 3).unwrap();
    grid.add_neighbor(at(0, 0), at(1, 0)).unwrap();
    let mut source = ScriptedRandom::new(fixed_draws(1, 1000));
    let outcome = mazify(&mut grid, &mut source);
    assert!(matches!(outcome, Err(MazeError::NonEmptyGridError)));
    assert_eq!(grid.passage_count(), 1);
    assert!(grid.are_neighbors(at(0, 0), at(1, 0)));
    assert_eq!(source.next_below(usize::MAX), Some(fixed_draws(1, 1)[0]));
}

#[test]
fn mazify_leaves_no_passage_when_the_draws_run_out() {
    let mut grid = Grid::new(3, 3).unwrap();
    let mut source = ScriptedRandom::new(vec![8, 0, RIGHT, RIGHT, DOWN, DOWN, 0, DOWN]);
    let outcome = mazify(&mut grid, &mut source);
    assert!(matches!(outcome, Err(MazeError::RandomnessExhausted)));
    assert_eq!(grid.passage_count(), 0);
    assert_eq!(grid.get_number_of_cells_x_y(), (3, 3));
    let mut none = ScriptedRandom::new(vec![]);
    let outcome = mazify(&mut grid, &mut none);
    assert!(matches!(outcome, Err(MazeError::RandomnessExhausted)));
    assert_eq!(grid.passage_count(), 0);
}

#[test]
fn mazify_with_the_thread_source_grows_spanning_trees() {
    for (columns, rows) in [(1u16, 1u16), (1, 7), (7, 1), (2, 2), (5, 4), (10, 10)] {
        let mut grid = Grid::new(columns, rows).unwrap();
        let mut source = ThreadRandom::new(u64::MAX);
        let internals = mazify(&mut grid, &mut source).unwrap();
        assert_spanning_tree(&grid);
        let paths = internals.get_paths();
        let mut passages = 0;
        for (walk, erased, snapshot) in paths.iter() {
            assert_eq!(
                loop_erased_path(walk).get_cells_positions(),
                erased.get_cells_positions()
            );
            passages += erased.length() as u64 - 1;
            assert_eq!(snapshot.passage_count(), passages);
        }
        assert_eq!(passages, grid.passage_count());
    }
}

#[test]
fn mazify_with_fixed_draws_grows_spanning_trees() {
    for seed in 0..25u64 {
        let mut grid = Grid::new(6, 4).unwrap();
        let mut source = ScriptedRandom::new(fixed_draws(seed, 200_000));
        mazify(&mut grid, &mut source).unwrap();
        assert_spanning_tree(&grid);
    }
}

#[test]
fn random_walk_on_one_cell_can_never_step() {
    let grid = Grid::new(1, 1).unwrap();
    let visited = vec![at(0, 0)];
    let mut source = ScriptedRandom::new(vec![LEFT, UP, RIGHT, DOWN, LEFT]);
    let outcome = random_walk(at(0, 0), &grid, &visited, &mut source);
    assert!(matches!(outcome, Err(MazeError::RandomnessExhausted)));
    assert_eq!(source.next_below(4), None);
}

#[test]
fn mazify_without_draws_gives_up_at_once() {
    let mut grid = Grid::new(4, 4).unwrap();
    let mut source = ThreadRandom::new(0);
    let outcome = mazify(&mut grid, &mut source);
    assert!(matches!(outcome, Err(MazeError::RandomnessExhausted)));
    assert_eq!(grid.passage_count(), 0);
    let mut one = ThreadRandom::new(1);
    let outcome = mazify(&mut grid, &mut one);
    assert!(matches!(outcome, Err(MazeError::RandomnessExhausted)));
    assert_eq!(grid.passage_count(), 0);
    assert_eq!(one.next_below(9), None);
}

#[test]
fn mazify_can_run_again_after_it_gave_up() {
    let mut grid = Grid::new(3, 2).unwrap();
    let mut short = ScriptedRandom::new(fixed_draws(3, 4));
    assert!(matches!(
        mazify(&mut grid, &mut short),
        Err(MazeError::RandomnessExhausted)
    ));
    let mut long = ScriptedRandom::new(fixed_draws(3, 100_000));
    mazify(&mut grid, &mut long).unwrap();
    assert_spanning_tree(&grid);
    let mut more = ScriptedRandom::new(fixed_draws(4, 100_000));
    assert!(matches!(
        mazify(&mut grid, &mut more),
        Err(MazeError::NonEmptyGridError)
    ));
    assert_spanning_tree(&grid);
}

