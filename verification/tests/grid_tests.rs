use pathfinder::{
    get_color, get_tile_color, CellColor, GridCellType, GridError, Neighborhood, SearchableGrid,
};

fn count(grid: &SearchableGrid, wanted: GridCellType) -> usize {
    let mut found = 0;
    for row in 0..grid.rows() {
        for col in 0..grid.cols() {
            if grid.get(row, col).unwrap() == wanted {
                found += 1;
            }
        }
    }
    found
}

fn cells(grid: &SearchableGrid) -> Vec<GridCellType> {
    let mut all = Vec::new();
    for row in 0..grid.rows() {
        for col in 0..grid.cols() {
            all.push(grid.get(row, col).unwrap());
        }
    }
    all
}

#[test]
fn new_grid_holds_the_two_markers_and_nothing_else() {
    let grid = SearchableGrid::new(3, 4, (0, 0), (2, 3)).unwrap();
    assert_eq!(grid.rows(), 3);
    assert_eq!(grid.cols(), 4);
    assert_eq!(grid.start(), (0, 0));
    assert_eq!(grid.end(), (2, 3));
    assert_eq!(grid.neighborhood(), Neighborhood::Eight);
    for row in 0..3 {
        for col in 0..4 {
            let expected = if (row, col) == (0, 0) {
                GridCellType::Start
            } else if (row, col) == (2, 3) {
                GridCellType::End
            } else {
                GridCellType::Empty
            };
            assert_eq!(grid.get(row, col), Ok(expected));
        }
    }
}

#[test]
fn new_grid_keeps_the_neighborhood_it_was_made_with() {
    let grid =
        SearchableGrid::with_neighborhood(2, 2, (0, 0), (1, 1), Neighborhood::Four).unwrap();
    assert_eq!(grid.neighborhood(), Neighborhood::Four);
    let grid =
        SearchableGrid::with_neighborhood(2, 2, (0, 0), (1, 1), Neighborhood::Eight).unwrap();
    assert_eq!(grid.neighborhood(), Neighborhood::Eight);
}

#[test]
fn new_grid_needs_positive_dimensions() {
    assert_eq!(
        SearchableGrid::new(0, 5, (0, 0), (0, 1)).unwrap_err(),
        GridError::InvalidDimensions
    );
    assert_eq!(
        SearchableGrid::new(5, 0, (0, 0), (1, 0)).unwrap_err(),
        GridError::InvalidDimensions
    );
    assert_eq!(
        SearchableGrid::new(-1, 5, (0, 0), (0, 1)).unwrap_err(),
        GridError::InvalidDimensions
    );
    assert_eq!(
        SearchableGrid::new(5, -3, (0, 0), (0, 1)).unwrap_err(),
        GridError::InvalidDimensions
    );
}

#[test]
fn new_grid_needs_two_distinct_markers_inside() {
    assert_eq!(
        SearchableGrid::new(5, 5, (5, 0), (4, 4)).unwrap_err(),
        GridError::InvalidMarker
    );
    assert_eq!(
        SearchableGrid::new(5, 5, (0, 0), (4, 5)).unwrap_err(),
        GridError::InvalidMarker
    );
    assert_eq!(
        SearchableGrid::new(5, 5, (-1, 0), (4, 4)).unwrap_err(),
        GridError::InvalidMarker
    );
    assert_eq!(
        SearchableGrid::new(5, 5, (2, 2), (2, 2)).unwrap_err(),
        GridError::InvalidMarker
    );
    assert_eq!(
        SearchableGrid::new(1, 1, (0, 0), (0, 0)).unwrap_err(),
        GridError::InvalidMarker
    );
}

#[test]
fn get_outside_the_grid_is_out_of_bounds() {
    let grid = SearchableGrid::new(3, 3, (0, 0), (2, 2)).unwrap();
    assert_eq!(grid.get(3, 0), Err(GridError::OutOfBounds));
    assert_eq!(grid.get(0, 3), Err(GridError::OutOfBounds));
    assert_eq!(grid.get(-1, 0), Err(GridError::OutOfBounds));
    assert_eq!(grid.get(0, -1), Err(GridError::OutOfBounds));
    assert_eq!(grid.get(i32::MAX, i32::MIN), Err(GridError::OutOfBounds));
    assert!(grid.contains((2, 2)));
    assert!(!grid.contains((3, 3)));
}

#[test]
fn set_puts_and_clears_walls() {
    let mut grid = SearchableGrid::new(3, 3, (0, 0), (2, 2)).unwrap();
    assert_eq!(grid.set(1, 1, GridCellType::Wall), Ok(()));
    assert_eq!(grid.get(1, 1), Ok(GridCellType::Wall));
    assert_eq!(count(&grid, GridCellType::Wall), 1);
    assert_eq!(grid.set(1, 1, GridCellType::Empty), Ok(()));
    assert_eq!(grid.get(1, 1), Ok(GridCellType::Empty));
    assert_eq!(count(&grid, GridCellType::Wall), 0);
}

#[test]
fn set_outside_the_grid_is_out_of_bounds_and_changes_nothing() {
    let mut grid = SearchableGrid::new(3, 3, (0, 0), (2, 2)).unwrap();
    let before = cells(&grid);
    assert_eq!(grid.set(3, 1, GridCellType::Wall), Err(GridError::OutOfBounds));
    assert_eq!(grid.set(1, -1, GridCellType::Wall), Err(GridError::OutOfBounds));
    assert_eq!(cells(&grid), before);
}

#[test]
fn set_leaves_the_markers_alone() {
    let mut grid = SearchableGrid::new(3, 3, (0, 0), (2, 2)).unwrap();
    let before = cells(&grid);
    assert_eq!(grid.set(0, 0, GridCellType::Wall), Err(GridError::InvalidMutation));
    assert_eq!(grid.set(2, 2, GridCellType::Empty), Err(GridError::InvalidMutation));
    assert_eq!(grid.set(1, 1, GridCellType::Start), Err(GridError::InvalidMutation));
    assert_eq!(grid.set(1, 1, GridCellType::End), Err(GridError::InvalidMutation));
    assert_eq!(cells(&grid), before);
    assert_eq!(grid.start(), (0, 0));
    assert_eq!(grid.end(), (2, 2));
}

#[test]
fn moving_the_start_clears_the_cell_it_left() {
    let mut grid = SearchableGrid::new(4, 4, (0, 0), (3, 3)).unwrap();
    assert_eq!(grid.update_start_point((1, 2)), Ok(()));
    assert_eq!(grid.start(), (1, 2));
    assert_eq!(grid.get(1, 2), Ok(GridCellType::Start));
    assert_eq!(grid.get(0, 0), Ok(GridCellType::Empty));
    assert_eq!(count(&grid, GridCellType::Start), 1);
    assert_eq!(count(&grid, GridCellType::End), 1);
    assert_eq!(grid.end(), (3, 3));
}

#[test]
fn moving_the_end_clears_the_cell_it_left() {
    let mut grid = SearchableGrid::new(4, 4, (0, 0), (3, 3)).unwrap();
    assert_eq!(grid.update_end_point((2, 1)), Ok(()));
    assert_eq!(grid.end(), (2, 1));
    assert_eq!(grid.get(2, 1), Ok(GridCellType::End));
    assert_eq!(grid.get(3, 3), Ok(GridCellType::Empty));
    assert_eq!(count(&grid, GridCellType::Start), 1);
    assert_eq!(count(&grid, GridCellType::End), 1);
    assert_eq!(grid.start(), (0, 0));
}

#[test]
fn a_marker_moved_onto_a_wall_replaces_it() {
    let mut grid = SearchableGrid::new(4, 4, (0, 0), (3, 3)).unwrap();
    grid.set(1, 1, GridCellType::Wall).unwrap();
    grid.set(2, 2, GridCellType::Wall).unwrap();
    assert_eq!(grid.update_start_point((1, 1)), Ok(()));
    assert_eq!(grid.get(1, 1), Ok(GridCellType::Start));
    assert_eq!(grid.update_end_point((2, 2)), Ok(()));
    assert_eq!(grid.get(2, 2), Ok(GridCellType::End));
    assert_eq!(count(&grid, GridCellType::Wall), 0);
    assert_eq!(count(&grid, GridCellType::Start), 1);
    assert_eq!(count(&grid, GridCellType::End), 1);
}

#[test]
fn a_marker_moved_onto_its_own_cell_stays() {
    let mut grid = SearchableGrid::new(4, 4, (0, 0), (3, 3)).unwrap();
    let before = cells(&grid);
    assert_eq!(grid.update_start_point((0, 0)), Ok(()));
    assert_eq!(grid.update_end_point((3, 3)), Ok(()));
    assert_eq!(cells(&grid), before);
    assert_eq!(grid.start(), (0, 0));
    assert_eq!(grid.end(), (3, 3));
}

#[test]
fn a_marker_cannot_move_onto_the_other() {
    let mut grid = SearchableGrid::new(4, 4, (0, 0), (3, 3)).unwrap();
    let before = cells(&grid);
    assert_eq!(grid.update_start_point((3, 3)), Err(GridError::InvalidMutation));
    assert_eq!(grid.update_end_point((0, 0)), Err(GridError::InvalidMutation));
    assert_eq!(cells(&grid), before);
    assert_eq!(grid.start(), (0, 0));
    assert_eq!(grid.end(), (3, 3));
}

#[test]
fn a_marker_cannot_move_outside_the_grid() {
    let mut grid = SearchableGrid::new(4, 4, (0, 0), (3, 3)).unwrap();
    let before = cells(&grid);
    assert_eq!(grid.update_start_point((4, 0)), Err(GridError::OutOfBounds));
    assert_eq!(grid.update_start_point((0, -1)), Err(GridError::OutOfBounds));
    assert_eq!(grid.update_end_point((-1, 3)), Err(GridError::OutOfBounds));
    assert_eq!(grid.update_end_point((3, 4)), Err(GridError::OutOfBounds));
    assert_eq!(cells(&grid), before);
    assert_eq!(grid.start(), (0, 0));
    assert_eq!(grid.end(), (3, 3));
}

#[test]
fn reset_empties_every_cell_but_the_markers() {
    let mut grid = SearchableGrid::new(4, 5, (0, 0), (3, 4)).unwrap();
    for col in 0..5 {
        grid.set(1, col, GridCellType::Wall).unwrap();
    }
    grid.update_start_point((2, 2)).unwrap();
    assert_eq!(grid.reset_grid((3, 0), (0, 4)), Ok(()));
    assert_eq!(grid.start(), (3, 0));
    assert_eq!(grid.end(), (0, 4));
    assert_eq!(grid.rows(), 4);
    assert_eq!(grid.cols(), 5);
    for row in 0..4 {
        for col in 0..5 {
            let expected = if (row, col) == (3, 0) {
                GridCellType::Start
            } else if (row, col) == (0, 4) {
                GridCellType::End
            } else {
                GridCellType::Empty
            };
            assert_eq!(grid.get(row, col), Ok(expected));
        }
    }
}

#[test]
fn reset_keeps_the_neighborhood() {
    let mut grid =
        SearchableGrid::with_neighborhood(3, 3, (0, 0), (2, 2), Neighborhood::Four).unwrap();
    grid.reset_grid((1, 1), (0, 2)).unwrap();
    assert_eq!(grid.neighborhood(), Neighborhood::Four);
}

#[test]
fn reset_with_bad_markers_changes_nothing() {
    let mut grid = SearchableGrid::new(3, 3, (0, 0), (2, 2)).unwrap();
    grid.set(1, 1, GridCellType::Wall).unwrap();
    let before = cells(&grid);
    assert_eq!(grid.reset_grid((0, 0), (0, 0)), Err(GridError::InvalidMarker));
    assert_eq!(grid.reset_grid((3, 0), (0, 0)), Err(GridError::InvalidMarker));
    assert_eq!(grid.reset_grid((0, 0), (0, -1)), Err(GridError::InvalidMarker));
    assert_eq!(cells(&grid), before);
    assert_eq!(grid.start(), (0, 0));
    assert_eq!(grid.end(), (2, 2));
}

#[test]
fn one_start_and_one_end_whatever_is_done() {
    let mut grid = SearchableGrid::new(5, 5, (0, 0), (4, 4)).unwrap();
    let moves = [(1, 1), (4, 4), (0, 0), (7, 7), (2, 3), (2, 3), (-1, 2), (4, 0)];
    for (step, at) in moves.iter().enumerate() {
        let _ = grid.set(at.0, at.1, GridCellType::Wall);
        let _ = grid.set(at.1, at.0, GridCellType::Start);
        if step % 2 == 0 {
            let _ = grid.update_start_point(*at);
        } else {
            let _ = grid.update_end_point(*at);
        }
        if step == 5 {
            let _ = grid.reset_grid((4, 4), (0, 0));
        }
        assert_eq!(count(&grid, GridCellType::Start), 1);
        assert_eq!(count(&grid, GridCellType::End), 1);
        assert_eq!(grid.get(grid.start().0, grid.start().1), Ok(GridCellType::Start));
        assert_eq!(grid.get(grid.end().0, grid.end().1), Ok(GridCellType::End));
        assert_ne!(grid.start(), grid.end());
    }
}

#[test]
fn each_cell_type_has_its_color() {
    assert_eq!(get_color(GridCellType::Wall), CellColor::Black);
    assert_eq!(get_color(GridCellType::Empty), CellColor::White);
    assert_eq!(get_color(GridCellType::Start), CellColor::Green);
    assert_eq!(get_color(GridCellType::End), CellColor::Red);
}

#[test]
fn only_start_and_end_are_markers() {
    assert!(GridCellType::Start.marks_endpoint());
    assert!(GridCellType::End.marks_endpoint());
    assert!(!GridCellType::Wall.marks_endpoint());
    assert!(!GridCellType::Empty.marks_endpoint());
}

#[test]
fn a_route_shows_in_blue_on_empty_cells_only() {
    assert_eq!(get_tile_color(GridCellType::Empty, true), CellColor::Blue);
    assert_eq!(get_tile_color(GridCellType::Empty, false), CellColor::White);
    assert_eq!(get_tile_color(GridCellType::End, true), CellColor::Red);
    assert_eq!(get_tile_color(GridCellType::End, false), CellColor::Red);
    assert_eq!(get_tile_color(GridCellType::Start, true), CellColor::Green);
    assert_eq!(get_tile_color(GridCellType::Wall, true), CellColor::Black);
    assert_eq!(get_tile_color(GridCellType::Wall, false), CellColor::Black);
}

fn click_grid() -> SearchableGrid {
    let mut grid = SearchableGrid::new(3, 3, (0, 0), (2, 2)).unwrap();
    grid.set(1, 1, GridCellType::Wall).unwrap();
    grid
}

#[test]
fn a_left_click_walls_an_empty_cell() {
    let mut grid = click_grid();
    assert!(grid.click(0, 1, true, false));
    assert_eq!(grid.get(0, 1), Ok(GridCellType::Wall));
    assert!(!grid.click(0, 1, true, false));
    assert_eq!(grid.get(0, 1), Ok(GridCellType::Wall));
    assert!(!grid.click(1, 1, true, false));
    assert_eq!(grid.get(1, 1), Ok(GridCellType::Wall));
}

#[test]
fn a_right_click_clears_a_wall() {
    let mut grid = click_grid();
    assert!(grid.click(1, 1, false, true));
    assert_eq!(grid.get(1, 1), Ok(GridCellType::Empty));
    assert!(!grid.click(1, 1, false, true));
    assert_eq!(grid.get(1, 1), Ok(GridCellType::Empty));
    assert!(!grid.click(0, 1, false, true));
    assert_eq!(grid.get(0, 1), Ok(GridCellType::Empty));
}

#[test]
fn both_buttons_leave_an_empty_cell_empty_and_clear_a_wall() {
    let mut grid = click_grid();
    assert!(!grid.click(0, 1, true, true));
    assert_eq!(grid.get(0, 1), Ok(GridCellType::Empty));
    assert!(grid.click(1, 1, true, true));
    assert_eq!(grid.get(1, 1), Ok(GridCellType::Empty));
}

#[test]
fn a_click_changes_no_marker_and_nothing_outside() {
    let mut grid = click_grid();
    let before = cells(&grid);
    for (left, right) in [(true, false), (false, true), (true, true), (false, false)] {
        assert!(!grid.click(0, 0, left, right));
        assert!(!grid.click(2, 2, left, right));
        assert!(!grid.click(3, 0, left, right));
        assert!(!grid.click(0, -1, left, right));
    }
    assert!(!grid.click(0, 1, false, false));
    assert!(!grid.click(1, 1, false, false));
    assert_eq!(cells(&grid), before);
    assert_eq!(count(&grid, GridCellType::Start), 1);
    assert_eq!(count(&grid, GridCellType::End), 1);
}
