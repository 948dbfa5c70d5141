use wilson_maze::error::MazeError;
use wilson_maze::model::cell::{
    contains_position, copy_positions, find_position, positions_touch, remove_position,
    reverse_positions, Cell, Position,
};
use wilson_maze::model::grid::Grid;

fn at(x: usize, y: usize) -> Position {
    Position { x, y }
}

#[test]
fn cell_new_keeps_its_coordinates() {
    let cell = Cell::new(3, 7);
    assert_eq!(cell.get_x(), 3);
    assert_eq!(cell.get_y(), 7);
    assert_eq!(cell.get_position(), at(3, 7));
}

#[test]
fn cell_from_tuple_reads_column_then_row() {
    let cell = Cell::from_tuple((4, 9));
    assert_eq!(cell.get_x(), 4);
    assert_eq!(cell.get_y(), 9);
    assert_eq!(cell.get_position(), at(4, 9));
}

#[test]
fn positions_are_equal_by_value() {
    assert_eq!(at(1, 2), at(1, 2));
    assert_ne!(at(1, 2), at(2, 1));
}

#[test]
fn positions_touch_along_one_axis_only() {
    assert!(positions_touch(at(1, 1), at(2, 1)));
    assert!(positions_touch(at(1, 1), at(0, 1)));
    assert!(positions_touch(at(1, 1), at(1, 2)));
    assert!(positions_touch(at(1, 1), at(1, 0)));
    assert!(!positions_touch(at(1, 1), at(1, 1)));
    assert!(!positions_touch(at(1, 1), at(2, 2)));
    assert!(!positions_touch(at(1, 1), at(3, 1)));
    assert!(!positions_touch(at(0, 0), at(usize::MAX, 0)));
}

#[test]
fn list_helpers_follow_the_first_occurrence() {
    let list = vec![at(0, 0), at(1, 0), at(0, 0), at(2, 0)];
    assert!(contains_position(&list, at(2, 0)));
    assert!(!contains_position(&list, at(5, 5)));
    assert_eq!(find_position(&list, at(0, 0)), Some(0));
    assert_eq!(find_position(&list, at(2, 0)), Some(3));
    assert_eq!(find_position(&list, at(9, 9)), None);
    assert_eq!(copy_positions(&list), list);
    assert_eq!(
        reverse_positions(&list),
        vec![at(2, 0), at(0, 0), at(1, 0), at(0, 0)]
    );
    let mut shorter = copy_positions(&list);
    assert!(remove_position(&mut shorter, at(0, 0)));
    assert_eq!(shorter, vec![at(1, 0), at(0, 0), at(2, 0)]);
    assert!(!remove_position(&mut shorter, at(7, 7)));
    assert_eq!(shorter, vec![at(1, 0), at(0, 0), at(2, 0)]);
}

#[test]
fn grid_new_rejects_zero_columns() {
    assert!(matches!(Grid::new(0, 3), Err(MazeError::InvalidDimensions)));
}

#[test]
fn grid_new_rejects_zero_rows() {
    assert!(matches!(Grid::new(3, 0), Err(MazeError::InvalidDimensions)));
    assert!(matches!(Grid::new(0, 0), Err(MazeError::InvalidDimensions)));
}

#[test]
fn grid_new_has_every_cell_and_no_passage() {
    let grid = Grid::new(3, 2).unwrap();
    assert_eq!(grid.get_number_of_cells_x_y(), (3, 2));
    assert_eq!(
        grid.get_cells_positions(),
        vec![at(0, 0), at(1, 0), at(2, 0), at(0, 1), at(1, 1), at(2, 1)]
    );
    assert_eq!(grid.passage_count(), 0);
    assert_eq!(grid.get_neighbors().len(), 6);
    for list in grid.get_neighbors() {
        assert!(list.is_empty());
    }
    assert!(grid.get_neighbors_of_pos(at(1, 1)).is_empty());
}

#[test]
fn grid_of_one_cell() {
    let grid = Grid::new(1, 1).unwrap();
    assert_eq!(grid.get_cells_positions(), vec![at(0, 0)]);
    assert!(grid.has_position(at(0, 0)));
    assert!(!grid.has_position(at(1, 0)));
    assert!(!grid.has_position(at(0, 1)));
    assert_eq!(grid.position_index(at(0, 0)), 0);
}

#[test]
fn position_index_counts_row_by_row() {
    let grid = Grid::new(4, 3).unwrap();
    assert_eq!(grid.position_index(at(0, 0)), 0);
    assert_eq!(grid.position_index(at(3, 0)), 3);
    assert_eq!(grid.position_index(at(0, 1)), 4);
    assert_eq!(grid.position_index(at(2, 2)), 10);
    assert_eq!(grid.position_index(at(3, 2)), 11);
}

#[test]
fn add_neighbor_joins_both_ways() {
    let mut grid = Grid::new(3, 3).unwrap();
    assert!(!grid.are_neighbors(at(0, 0), at(1, 0)));
    assert_eq!(grid.add_neighbor(at(0, 0), at(1, 0)), Ok(()));
    assert!(grid.are_neighbors(at(0, 0), at(1, 0)));
    assert!(grid.are_neighbors(at(1, 0), at(0, 0)));
    assert!(!grid.are_neighbors(at(1, 0), at(2, 0)));
    assert!(!grid.are_neighbors(at(0, 0), at(0, 1)));
    assert_eq!(grid.passage_count(), 1);
    assert_eq!(grid.get_neighbors_of_pos(at(0, 0)), vec![at(1, 0)]);
    assert_eq!(grid.get_neighbors_of_pos(at(1, 0)), vec![at(0, 0)]);
}

#[test]
fn are_neighbors_is_symmetric_for_every_pair() {
    let mut grid = Grid::new(3, 2).unwrap();
    grid.add_neighbor(at(0, 0), at(0, 1)).unwrap();
    grid.add_neighbor(at(2, 1), at(1, 1)).unwrap();
    grid.add_neighbor(at(1, 0), at(1, 1)).unwrap();
    let mut probes = grid.get_cells_positions();
    probes.push(at(3, 0));
    probes.push(at(0, 2));
    probes.push(at(usize::MAX, usize::MAX));
    for a in probes.iter() {
        for b in probes.iter() {
            assert_eq!(grid.are_neighbors(*a, *b), grid.are_neighbors(*b, *a));
        }
    }
}

#[test]
fn add_neighbor_twice_changes_nothing() {
    let mut grid = Grid::new(2, 2).unwrap();
    assert_eq!(grid.add_neighbor(at(0, 0), at(0, 1)), Ok(()));
    assert_eq!(grid.add_neighbor(at(0, 0), at(0, 1)), Ok(()));
    assert_eq!(grid.add_neighbor(at(0, 1), at(0, 0)), Ok(()));
    assert_eq!(grid.passage_count(), 1);
    assert_eq!(grid.get_neighbors_of_pos(at(0, 0)), vec![at(0, 1)]);
    assert_eq!(grid.get_neighbors_of_pos(at(0, 1)), vec![at(0, 0)]);
}

#[test]
fn add_neighbor_rejects_positions_off_the_grid() {
    let mut grid = Grid::new(2, 2).unwrap();
    assert_eq!(
        grid.add_neighbor(at(1, 0), at(2, 0)),
        Err(MazeError::InvalidPosition)
    );
    assert_eq!(
        grid.add_neighbor(at(0, 2), at(0, 1)),
        Err(MazeError::InvalidPosition)
    );
    assert_eq!(
        grid.add_neighbor(at(5, 5), at(9, 9)),
        Err(MazeError::InvalidPosition)
    );
    assert_eq!(grid.passage_count(), 0);
}

#[test]
fn add_neighbor_rejects_cells_that_do_not_touch() {
    let mut grid = Grid::new(3, 3).unwrap();
    assert_eq!(
        grid.add_neighbor(at(0, 0), at(1, 1)),
        Err(MazeError::NonAdjacentPositions)
    );
    assert_eq!(
        grid.add_neighbor(at(0, 0), at(2, 0)),
        Err(MazeError::NonAdjacentPositions)
    );
    assert_eq!(
        grid.add_neighbor(at(1, 1), at(1, 1)),
        Err(MazeError::NonAdjacentPositions)
    );
    assert_eq!(grid.passage_count(), 0);
}

#[test]
fn are_neighbors_is_false_off_the_grid() {
    let mut grid = Grid::new(2, 1).unwrap();
    grid.add_neighbor(at(0, 0), at(1, 0)).unwrap();
    assert!(!grid.are_neighbors(at(1, 0), at(2, 0)));
    assert!(!grid.are_neighbors(at(2, 0), at(1, 0)));
    assert!(!grid.are_neighbors(at(0, 0), at(0, 1)));
    assert!(!grid.are_neighbors(at(7, 7), at(7, 8)));
    assert!(grid.get_neighbors_of_pos(at(2, 0)).is_empty());
}

#[test]
fn neighbors_keep_the_order_in_which_passages_were_opened() {
    let mut grid = Grid::new(3, 3).unwrap();
    grid.add_neighbor(at(1, 1), at(1, 2)).unwrap();
    grid.add_neighbor(at(0, 1), at(1, 1)).unwrap();
    grid.add_neighbor(at(1, 1), at(1, 0)).unwrap();
    grid.add_neighbor(at(2, 1), at(1, 1)).unwrap();
    assert_eq!(
        grid.get_neighbors_of_pos(at(1, 1)),
        vec![at(1, 2), at(0, 1), at(1, 0), at(2, 1)]
    );
    assert_eq!(grid.get_neighbors()[4], vec![at(1, 2), at(0, 1), at(1, 0), at(2, 1)]);
    assert_eq!(grid.get_neighbors()[1], vec![at(1, 1)]);
    assert_eq!(grid.passage_count(), 4);
}

#[test]
fn passage_count_counts_each_passage_once() {
    let mut grid = Grid::new(2, 2).unwrap();
    grid.add_neighbor(at(0, 0), at(1, 0)).unwrap();
    grid.add_neighbor(at(1, 0), at(1, 1)).unwrap();
    grid.add_neighbor(at(1, 1), at(0, 1)).unwrap();
    grid.add_neighbor(at(0, 1), at(0, 0)).unwrap();
    assert_eq!(grid.passage_count(), 4);
}

#[test]
fn clone_keeps_size_and_passages() {
    let mut grid = Grid::new(3, 2).unwrap();
    grid.add_neighbor(at(0, 0), at(1, 0)).unwrap();
    grid.add_neighbor(at(1, 0), at(1, 1)).unwrap();
    let copy = grid.clone();
    grid.add_neighbor(at(1, 1), at(2, 1)).unwrap();
    assert_eq!(copy.get_number_of_cells_x_y(), (3, 2));
    assert_eq!(copy.passage_count(), 2);
    assert!(copy.are_neighbors(at(1, 0), at(0, 0)));
    assert!(copy.are_neighbors(at(1, 0), at(1, 1)));
    assert!(!copy.are_neighbors(at(1, 1), at(2, 1)));
    assert_eq!(copy.get_neighbors_of_pos(at(1, 0)), vec![at(0, 0), at(1, 1)]);
    assert_eq!(grid.passage_count(), 3);
}
