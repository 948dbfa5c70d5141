use wilson_maze::error::MazeError;
use wilson_maze::maze_generator::mazify;
use wilson_maze::model::cell::Position;
use wilson_maze::model::grid::Grid;
use wilson_maze::mouse::{backtrack_to_current_pos, Algo, BFSMouse};
use wilson_maze::random::{ScriptedRandom, ThreadRandom};

fn at(x: usize, y: usize) -> Position {
    Position { x, y }
}

fn fixed_draws(seed: u64, count: usize) -> Vec<usize> {
    let mut state = seed;
    let mut draws = Vec::new();
    for _ in 0..count {
        state = state
            .wrapping_mul(6364136223846793005)
            .wrapping_add(1442695040888963407);
        draws.push((state >> 33) as usize);
    }
    draws
}

/// The number of passages on a shortest way from `from` to `to`.
fn distance(grid: &Grid, from: Position, to: Position) -> Option<usize> {
    let mut seen = vec![(from, 0usize)];
    let mut next = 0;
    while next < seen.len() {
        let (here, far) = seen[next];
        if here == to {
            return Some(far);
        }
        for cell in grid.get_neighbors_of_pos(here) {
            if !seen.iter().any(|entry| entry.0 == cell) {
                seen.push((cell, far + 1));
            }
        }
        next += 1;
    }
    None
}

#[test]
fn backtrack_walks_back_to_the_branch_point_and_forth() {
    let mut path = vec![at(9, 9)];
    let next = vec![at(0, 0), at(1, 0), at(2, 0)];
    let current = vec![at(0, 0), at(0, 1), at(0, 2)];
    backtrack_to_current_pos(&mut path, &next, &current);
    assert_eq!(
        path,
        vec![at(9, 9), at(0, 1), at(0, 0), at(1, 0), at(2, 0)]
    );
}

#[test]
fn backtrack_adds_nothing_when_the_next_cell_hangs_from_the_current_one() {
    let mut path = vec![at(0, 0), at(1, 0)];
    let next = vec![at(0, 0), at(1, 0)];
    let current = vec![at(0, 0), at(1, 0)];
    backtrack_to_current_pos(&mut path, &next, &current);
    assert_eq!(path, vec![at(0, 0), at(1, 0)]);
}

#[test]
fn backtrack_takes_the_deepest_shared_cell() {
    let mut path = vec![];
    let next = vec![at(0, 0), at(1, 0), at(1, 1), at(1, 2)];
    let current = vec![at(0, 0), at(1, 0), at(1, 1), at(2, 1), at(3, 1)];
    backtrack_to_current_pos(&mut path, &next, &current);
    assert_eq!(path, vec![at(2, 1), at(1, 1), at(1, 2)]);
}

#[test]
fn backtrack_with_empty_ways_adds_nothing() {
    let mut path = vec![at(4, 4)];
    backtrack_to_current_pos(&mut path, &vec![], &vec![]);
    assert_eq!(path, vec![at(4, 4)]);
    backtrack_to_current_pos(&mut path, &vec![at(0, 0)], &vec![]);
    assert_eq!(path, vec![at(4, 4)]);
}

#[test]
fn backtrack_without_a_shared_cell_goes_back_to_the_first() {
    let mut path = vec![];
    let next = vec![at(5, 5), at(5, 6)];
    let current = vec![at(0, 0), at(0, 1), at(0, 2)];
    backtrack_to_current_pos(&mut path, &next, &current);
    assert_eq!(path, vec![at(0, 1), at(0, 0), at(5, 6)]);
    let mut path = vec![];
    backtrack_to_current_pos(&mut path, &vec![], &current);
    assert_eq!(path, vec![at(0, 1), at(0, 0)]);
}

#[test]
fn solve_two_cells() {
    let mut grid = Grid::new(2, 1).unwrap();
    let mut source = ThreadRandom::new(1_000_000);
    mazify(&mut grid, &mut source).unwrap();
    let mouse = BFSMouse::new(at(0, 0));
    assert_eq!(mouse.solve(at(1, 0), &grid), Ok(vec![at(0, 0), at(1, 0)]));
}

#[test]
fn solve_from_the_goal_is_one_cell() {
    let grid = Grid::new(3, 3).unwrap();
    let mouse = BFSMouse::new(at(1, 1));
    assert_eq!(mouse.solve(at(1, 1), &grid), Ok(vec![at(1, 1)]));
}

#[test]
fn solve_reports_a_goal_that_cannot_be_reached() {
    let mut grid = Grid::new(3, 1).unwrap();
    grid.add_neighbor(at(0, 0), at(1, 0)).unwrap();
    let mouse = BFSMouse::new(at(0, 0));
    assert_eq!(mouse.solve(at(2, 0), &grid), Err(MazeError::UnreachableGoal));
    let other = BFSMouse::new(at(2, 0));
    assert_eq!(other.solve(at(0, 0), &grid), Err(MazeError::UnreachableGoal));
    let empty = Grid::new(2, 2).unwrap();
    assert_eq!(
        BFSMouse::new(at(0, 0)).solve(at(1, 1), &empty),
        Err(MazeError::UnreachableGoal)
    );
}

#[test]
fn solve_refuses_positions_off_the_grid() {
    let mut grid = Grid::new(2, 2).unwrap();
    grid.add_neighbor(at(0, 0), at(1, 0)).unwrap();
    assert_eq!(
        BFSMouse::new(at(0, 0)).solve(at(2, 0), &grid),
        Err(MazeError::InvalidPosition)
    );
    assert_eq!(
        BFSMouse::new(at(0, 2)).solve(at(0, 0), &grid),
        Err(MazeError::InvalidPosition)
    );
    assert_eq!(
        BFSMouse::new(at(5, 5)).solve(at(5, 5), &grid),
        Err(MazeError::InvalidPosition)
    );
}

#[test]
fn solve_walks_back_between_branches() {
    let mut grid = Grid::new(3, 2).unwrap();
    grid.add_neighbor(at(0, 0), at(1, 0)).unwrap();
    grid.add_neighbor(at(1, 0), at(2, 0)).unwrap();
    grid.add_neighbor(at(0, 0), at(0, 1)).unwrap();
    grid.add_neighbor(at(0, 1), at(1, 1)).unwrap();
    grid.add_neighbor(at(1, 1), at(2, 1)).unwrap();
    let mouse = BFSMouse::new(at(0, 0));
    assert_eq!(
        mouse.solve(at(2, 1), &grid),
        Ok(vec![
            at(0, 0),
            at(1, 0),
            at(0, 0),
            at(0, 1),
            at(0, 0),
            at(1, 0),
            at(2, 0),
            at(1, 0),
            at(0, 0),
            at(0, 1),
            at(1, 1),
            at(2, 1)
        ])
    );
    assert_eq!(
        mouse.solve(at(0, 1), &grid),
        Ok(vec![at(0, 0), at(1, 0), at(0, 0), at(0, 1)])
    );
}

#[test]
fn solve_in_a_grid_with_a_round_trip() {
    let mut grid = Grid::new(2, 2).unwrap();
    grid.add_neighbor(at(0, 0), at(1, 0)).unwrap();
    grid.add_neighbor(at(1, 0), at(1, 1)).unwrap();
    grid.add_neighbor(at(1, 1), at(0, 1)).unwrap();
    grid.add_neighbor(at(0, 1), at(0, 0)).unwrap();
    let mouse = BFSMouse::new(at(0, 0));
    assert_eq!(
        mouse.solve(at(1, 1), &grid),
        Ok(vec![at(0, 0), at(1, 0), at(0, 0), at(0, 1), at(0, 0), at(1, 0), at(1, 1)])
    );
}

#[test]
fn set_new_position_moves_the_start() {
    let mut grid = Grid::new(3, 1).unwrap();
    grid.add_neighbor(at(0, 0), at(1, 0)).unwrap();
    grid.add_neighbor(at(1, 0), at(2, 0)).unwrap();
    let mut mouse = BFSMouse::new(at(0, 0));
    mouse.set_new_position(at(2, 0));
    assert_eq!(
        mouse.solve(at(0, 0), &grid),
        Ok(vec![at(2, 0), at(1, 0), at(0, 0)])
    );
}

#[test]
fn solve_on_generated_mazes_walks_through_passages_only() {
    for seed in 0..20u64 {
        let mut grid = Grid::new(7, 5).unwrap();
        let mut source = ScriptedRandom::new(fixed_draws(seed, 400_000));
        mazify(&mut grid, &mut source).unwrap();
        let start = at(0, 0);
        let goal = at(6, 4);
        let path = BFSMouse::new(start).solve(goal, &grid).unwrap();
        assert_eq!(path[0], start);
        assert_eq!(*path.last().unwrap(), goal);
        for i in 0..path.len() - 1 {
            assert!(grid.are_neighbors(path[i], path[i + 1]));
        }
        let shortest = distance(&grid, start, goal).unwrap();
        assert!(path.len() >= shortest + 1);
        assert_eq!(path.iter().filter(|cell| **cell == goal).count(), 1);
    }
}

#[test]
fn solve_reaches_every_cell_of_a_generated_maze() {
    let mut grid = Grid::new(5, 5).unwrap();
    let mut source = ThreadRandom::new(u64::MAX);
    mazify(&mut grid, &mut source).unwrap();
    let mouse = BFSMouse::new(at(2, 2));
    for goal in grid.get_cells_positions() {
        let path = mouse.solve(goal, &grid).unwrap();
        assert_eq!(path[0], at(2, 2));
        assert_eq!(*path.last().unwrap(), goal);
        for i in 0..path.len() - 1 {
            assert!(grid.are_neighbors(path[i], path[i + 1]));
        }
    }
}
