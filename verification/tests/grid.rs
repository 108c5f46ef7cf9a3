use spatial_grid::grid::{Grid, GridError};
use spatial_grid::model::Move;
use std::collections::HashMap;

fn cell_of(coordinate: f32, cell_size: f32) -> i64 {
    (coordinate / cell_size).floor() as i64
}

fn bucket(grid: &Grid, x: i64, y: i64) -> Vec<u64> {
    grid.cell(x, y).unwrap().clone()
}

fn cells_holding(grid: &Grid, id: u64) -> Vec<(i64, i64)> {
    let mut places = Vec::new();
    for y in 0..grid.world_height() as i64 {
        for x in 0..grid.world_width() as i64 {
            for held in bucket(grid, x, y) {
                if held == id {
                    places.push((x, y));
                }
            }
        }
    }
    places
}

fn names(ids: &[u64]) -> HashMap<u64, String> {
    let mut table = HashMap::new();
    for id in ids {
        table.insert(*id, format!("object {}", id));
    }
    table
}

fn found_names(found: Vec<&String>) -> Vec<String> {
    found.into_iter().cloned().collect()
}

#[test]
fn new_grid_has_its_dimensions_and_empty_buckets() {
    let grid = Grid::new(3, 4);
    assert_eq!(grid.world_height(), 3);
    assert_eq!(grid.world_width(), 4);
    for y in 0..3 {
        for x in 0..4 {
            assert_eq!(bucket(&grid, x, y), Vec::<u64>::new());
        }
    }
}

#[test]
fn new_grid_without_cells_has_no_cell() {
    let grid = Grid::new(0, 0);
    assert_eq!(grid.cell(0, 0), Err(GridError::OutOfWorld));
    let rows_only = Grid::new(2, 0);
    assert_eq!(rows_only.cell(0, 0), Err(GridError::OutOfWorld));
    let columns_only = Grid::new(0, 2);
    assert_eq!(columns_only.cell(0, 0), Err(GridError::OutOfWorld));
}

#[test]
fn cell_outside_the_world_is_refused() {
    let grid = Grid::new(3, 4);
    assert_eq!(grid.cell(4, 0), Err(GridError::OutOfWorld));
    assert_eq!(grid.cell(0, 3), Err(GridError::OutOfWorld));
    assert_eq!(grid.cell(-1, 0), Err(GridError::OutOfWorld));
    assert_eq!(grid.cell(0, -1), Err(GridError::OutOfWorld));
    assert_eq!(grid.cell(i64::MAX, i64::MAX), Err(GridError::OutOfWorld));
    assert!(grid.cell(3, 2).is_ok());
}

#[test]
fn add_appends_in_insertion_order() {
    let mut grid = Grid::new(3, 4);
    assert_eq!(grid.add(7, 2, 1), Ok(()));
    assert_eq!(grid.add(3, 2, 1), Ok(()));
    assert_eq!(grid.add(9, 0, 0), Ok(()));
    assert_eq!(bucket(&grid, 2, 1), vec![7, 3]);
    assert_eq!(bucket(&grid, 0, 0), vec![9]);
    assert_eq!(bucket(&grid, 1, 2), Vec::<u64>::new());
}

#[test]
fn add_keeps_width_and_height_apart() {
    let mut grid = Grid::new(2, 6);
    assert_eq!(grid.add(1, 5, 1), Ok(()));
    assert_eq!(grid.add(2, 1, 5), Err(GridError::OutOfWorld));
    assert_eq!(bucket(&grid, 5, 1), vec![1]);
}

#[test]
fn add_outside_the_world_is_refused_and_changes_nothing() {
    let mut grid = Grid::new(5, 5);
    assert_eq!(grid.add(1, 5, 0), Err(GridError::OutOfWorld));
    assert_eq!(grid.add(1, 0, 5), Err(GridError::OutOfWorld));
    assert_eq!(grid.add(1, -1, 2), Err(GridError::OutOfWorld));
    assert_eq!(grid.add(1, 2, -1), Err(GridError::OutOfWorld));
    assert_eq!(cells_holding(&grid, 1), Vec::<(i64, i64)>::new());
}

#[test]
fn remove_takes_the_identifier_out_of_its_cell_only() {
    let mut grid = Grid::new(5, 5);
    grid.add(1, 2, 3).unwrap();
    grid.add(2, 2, 3).unwrap();
    grid.add(1, 2, 3).unwrap();
    grid.add(3, 2, 3).unwrap();
    grid.add(1, 0, 0).unwrap();
    grid.remove(1, 2, 3);
    assert_eq!(bucket(&grid, 2, 3), vec![2, 3]);
    assert_eq!(bucket(&grid, 0, 0), vec![1]);
}

#[test]
fn remove_of_an_absent_identifier_changes_nothing() {
    let mut grid = Grid::new(5, 5);
    grid.add(1, 2, 3).unwrap();
    grid.add(2, 2, 3).unwrap();
    grid.remove(9, 2, 3);
    assert_eq!(bucket(&grid, 2, 3), vec![1, 2]);
    grid.remove(1, 2, 3);
    grid.remove(1, 2, 3);
    assert_eq!(bucket(&grid, 2, 3), vec![2]);
    grid.remove(2, 4, 4);
    assert_eq!(bucket(&grid, 2, 3), vec![2]);
}

#[test]
fn remove_outside_the_world_changes_nothing() {
    let mut grid = Grid::new(5, 5);
    grid.add(1, 0, 0).unwrap();
    grid.add(1, 4, 4).unwrap();
    grid.remove(1, 5, 5);
    grid.remove(1, -1, 0);
    grid.remove(1, 0, -1);
    grid.remove(1, 5, 0);
    assert_eq!(cells_holding(&grid, 1), vec![(0, 0), (4, 4)]);
}

#[test]
fn relocate_within_the_same_cell_changes_nothing() {
    let mut grid = Grid::new(5, 5);
    grid.add(1, 1, 1).unwrap();
    grid.add(2, 1, 1).unwrap();
    let still = Move { id: 1, previous_x: 1, previous_y: 1, next_x: 1, next_y: 1 };
    assert!(!grid.relocate(still));
    assert_eq!(bucket(&grid, 1, 1), vec![1, 2]);
}

#[test]
fn relocate_moves_the_identifier_to_its_new_cell() {
    let mut grid = Grid::new(5, 5);
    grid.add(1, 1, 1).unwrap();
    grid.add(2, 1, 1).unwrap();
    grid.add(3, 2, 1).unwrap();
    let step = Move { id: 1, previous_x: 1, previous_y: 1, next_x: 2, next_y: 1 };
    assert!(!grid.relocate(step));
    assert_eq!(bucket(&grid, 1, 1), vec![2]);
    assert_eq!(bucket(&grid, 2, 1), vec![3, 1]);
    assert_eq!(cells_holding(&grid, 1), vec![(2, 1)]);
}

#[test]
fn relocate_out_of_the_world_evicts() {
    let mut grid = Grid::new(5, 5);
    grid.add(1, 4, 0).unwrap();
    let step = Move { id: 1, previous_x: 4, previous_y: 0, next_x: 5, next_y: 0 };
    assert!(grid.relocate(step));
    assert_eq!(cells_holding(&grid, 1), Vec::<(i64, i64)>::new());
}

#[test]
fn relocate_below_zero_evicts() {
    let mut grid = Grid::new(5, 5);
    grid.add(1, 0, 2).unwrap();
    let step = Move { id: 1, previous_x: 0, previous_y: 2, next_x: -1, next_y: 2 };
    assert!(grid.relocate(step));
    assert_eq!(cells_holding(&grid, 1), Vec::<(i64, i64)>::new());
}

#[test]
fn relocate_back_into_the_world_inserts() {
    let mut grid = Grid::new(5, 5);
    let step = Move { id: 1, previous_x: 7, previous_y: 7, next_x: 3, next_y: 3 };
    assert!(!grid.relocate(step));
    assert_eq!(cells_holding(&grid, 1), vec![(3, 3)]);
}

#[test]
fn entity_leaving_the_world_is_evicted() {
    let cell_width: f32 = 10.0;
    let cell_height: f32 = 10.0;
    let mut grid = Grid::new(5, 5);
    let before = (cell_of(12.0, cell_width), cell_of(12.0, cell_height));
    assert_eq!(before, (1, 1));
    grid.add(1, before.0, before.1).unwrap();
    assert_eq!(cells_holding(&grid, 1), vec![(1, 1)]);
    let after = (cell_of(55.0, cell_width), cell_of(55.0, cell_height));
    assert_eq!(after, (5, 5));
    let moves = vec![Move {
        id: 1,
        previous_x: before.0,
        previous_y: before.1,
        next_x: after.0,
        next_y: after.1,
    }];
    let evicted = grid.update(&moves);
    assert_eq!(evicted, vec![1]);
    assert_eq!(bucket(&grid, 1, 1), Vec::<u64>::new());
    assert_eq!(cells_holding(&grid, 1), Vec::<(i64, i64)>::new());
}

#[test]
fn update_applies_the_steps_in_order() {
    let mut grid = Grid::new(4, 4);
    grid.add(1, 0, 0).unwrap();
    grid.add(2, 0, 0).unwrap();
    grid.add(3, 3, 3).unwrap();
    grid.add(4, 1, 2).unwrap();
    let moves = vec![
        Move { id: 1, previous_x: 0, previous_y: 0, next_x: 1, next_y: 0 },
        Move { id: 3, previous_x: 3, previous_y: 3, next_x: 3, next_y: 4 },
        Move { id: 2, previous_x: 0, previous_y: 0, next_x: 1, next_y: 0 },
        Move { id: 4, previous_x: 1, previous_y: 2, next_x: 1, next_y: 2 },
        Move { id: 1, previous_x: 1, previous_y: 0, next_x: -1, next_y: 0 },
    ];
    let evicted = grid.update(&moves);
    assert_eq!(evicted, vec![3, 1]);
    assert_eq!(bucket(&grid, 0, 0), Vec::<u64>::new());
    assert_eq!(bucket(&grid, 1, 0), vec![2]);
    assert_eq!(bucket(&grid, 3, 3), Vec::<u64>::new());
    assert_eq!(bucket(&grid, 1, 2), vec![4]);
    assert_eq!(cells_holding(&grid, 2), vec![(1, 0)]);
    assert_eq!(cells_holding(&grid, 4), vec![(1, 2)]);
}

#[test]
fn update_without_a_change_of_cell_leaves_the_buckets() {
    let mut grid = Grid::new(3, 3);
    grid.add(5, 1, 1).unwrap();
    grid.add(6, 1, 1).unwrap();
    grid.add(7, 2, 0).unwrap();
    let moves = vec![
        Move { id: 6, previous_x: 1, previous_y: 1, next_x: 1, next_y: 1 },
        Move { id: 5, previous_x: 1, previous_y: 1, next_x: 1, next_y: 1 },
        Move { id: 7, previous_x: 2, previous_y: 0, next_x: 2, next_y: 0 },
    ];
    let evicted = grid.update(&moves);
    assert_eq!(evicted, Vec::<u64>::new());
    assert_eq!(bucket(&grid, 1, 1), vec![5, 6]);
    assert_eq!(bucket(&grid, 2, 0), vec![7]);
    let nothing = grid.update(&Vec::new());
    assert_eq!(nothing, Vec::<u64>::new());
    assert_eq!(bucket(&grid, 1, 1), vec![5, 6]);
}

#[test]
fn update_keeps_each_entity_in_the_cell_of_its_last_step() {
    let mut grid = Grid::new(5, 5);
    grid.add(1, 0, 0).unwrap();
    grid.add(2, 4, 4).unwrap();
    let first = vec![
        Move { id: 1, previous_x: 0, previous_y: 0, next_x: 1, next_y: 1 },
        Move { id: 2, previous_x: 4, previous_y: 4, next_x: 3, next_y: 4 },
    ];
    assert_eq!(grid.update(&first), Vec::<u64>::new());
    let second = vec![
        Move { id: 2, previous_x: 3, previous_y: 4, next_x: 1, next_y: 1 },
        Move { id: 1, previous_x: 1, previous_y: 1, next_x: 1, next_y: 2 },
    ];
    assert_eq!(grid.update(&second), Vec::<u64>::new());
    assert_eq!(cells_holding(&grid, 1), vec![(1, 2)]);
    assert_eq!(cells_holding(&grid, 2), vec![(1, 1)]);
}

#[test]
fn query_returns_the_entities_of_the_cells_in_range() {
    let mut grid = Grid::new(5, 5);
    grid.add(1, 1, 1).unwrap();
    grid.add(2, 2, 1).unwrap();
    grid.add(3, 1, 2).unwrap();
    grid.add(4, 3, 3).unwrap();
    grid.add(5, 0, 1).unwrap();
    grid.add(6, 1, 0).unwrap();
    let table = names(&[1, 2, 3, 4, 5, 6]);
    let found = found_names(grid.query(1, 1, 3, 3, &table));
    assert_eq!(found, vec!["object 1", "object 2", "object 3"]);
}

#[test]
fn query_goes_row_by_row_and_keeps_insertion_order() {
    let mut grid = Grid::new(3, 3);
    grid.add(30, 2, 1).unwrap();
    grid.add(10, 0, 1).unwrap();
    grid.add(21, 1, 0).unwrap();
    grid.add(20, 1, 0).unwrap();
    grid.add(11, 0, 1).unwrap();
    grid.add(40, 0, 2).unwrap();
    let table = names(&[10, 11, 20, 21, 30, 40]);
    let found = found_names(grid.query(0, 0, 3, 3, &table));
    assert_eq!(
        found,
        vec!["object 21", "object 20", "object 10", "object 11", "object 30", "object 40"]
    );
}

#[test]
fn query_excludes_the_end_cells() {
    let mut grid = Grid::new(5, 5);
    grid.add(1, 2, 2).unwrap();
    grid.add(2, 3, 2).unwrap();
    grid.add(3, 2, 3).unwrap();
    let table = names(&[1, 2, 3]);
    assert_eq!(found_names(grid.query(2, 2, 3, 3, &table)), vec!["object 1"]);
    assert_eq!(found_names(grid.query(2, 2, 2, 3, &table)), Vec::<String>::new());
    assert_eq!(found_names(grid.query(2, 2, 3, 2, &table)), Vec::<String>::new());
    assert_eq!(found_names(grid.query(3, 3, 2, 2, &table)), Vec::<String>::new());
}

#[test]
fn query_passes_over_cells_outside_the_world() {
    let mut grid = Grid::new(2, 3);
    grid.add(1, 0, 0).unwrap();
    grid.add(2, 2, 0).unwrap();
    grid.add(3, 2, 1).unwrap();
    let table = names(&[1, 2, 3]);
    let all = found_names(grid.query(-4, -4, 100, 100, &table));
    assert_eq!(all, vec!["object 1", "object 2", "object 3"]);
    let far = found_names(grid.query(i64::MIN, i64::MIN, i64::MAX, i64::MAX, &table));
    assert_eq!(far, vec!["object 1", "object 2", "object 3"]);
    let right = found_names(grid.query(2, 0, 9, 9, &table));
    assert_eq!(right, vec!["object 2", "object 3"]);
    let outside = found_names(grid.query(3, 2, 9, 9, &table));
    assert_eq!(outside, Vec::<String>::new());
    let before = found_names(grid.query(-9, -9, 0, 0, &table));
    assert_eq!(before, Vec::<String>::new());
}

#[test]
fn query_skips_identifiers_that_the_table_lacks() {
    let mut grid = Grid::new(2, 2);
    grid.add(1, 0, 0).unwrap();
    grid.add(2, 0, 0).unwrap();
    grid.add(3, 1, 1).unwrap();
    let table = names(&[2]);
    assert_eq!(found_names(grid.query(0, 0, 2, 2, &table)), vec!["object 2"]);
    let empty: HashMap<u64, String> = HashMap::new();
    assert_eq!(found_names(grid.query(0, 0, 2, 2, &empty)), Vec::<String>::new());
}

#[test]
fn query_of_a_viewport_rectangle_is_coarse() {
    let cell: f32 = 10.0;
    let mut grid = Grid::new(5, 5);
    grid.add(1, cell_of(15.0, cell), cell_of(25.0, cell)).unwrap();
    grid.add(2, cell_of(19.0, cell), cell_of(29.0, cell)).unwrap();
    grid.add(3, cell_of(45.0, cell), cell_of(45.0, cell)).unwrap();
    let table = names(&[1, 2, 3]);
    let found = found_names(grid.query(
        cell_of(10.0, cell),
        cell_of(20.0, cell),
        cell_of(10.0 + 30.0, cell),
        cell_of(20.0 + 20.0, cell),
        &table,
    ));
    assert_eq!(found, vec!["object 1", "object 2"]);
}

#[test]
fn query_does_not_change_the_grid() {
    let mut grid = Grid::new(2, 2);
    grid.add(1, 0, 0).unwrap();
    grid.add(2, 1, 1).unwrap();
    let table = names(&[1, 2]);
    let first = found_names(grid.query(0, 0, 2, 2, &table));
    let second = found_names(grid.query(0, 0, 2, 2, &table));
    assert_eq!(first, second);
    assert_eq!(bucket(&grid, 0, 0), vec![1]);
    assert_eq!(bucket(&grid, 1, 1), vec![2]);
}
