use pathfinder::{get_neighbors, GridCellType, Neighborhood, SearchableGrid};

fn grid(neighborhood: Neighborhood) -> SearchableGrid {
    SearchableGrid::with_neighborhood(5, 5, (0, 0), (4, 4), neighborhood).unwrap()
}

fn check_all(found: &[(i32, i32)], grid: &SearchableGrid) {
    for at in found {
        assert!(grid.contains(*at));
        assert_ne!(grid.get(at.0, at.1), Ok(GridCellType::Wall));
    }
}

#[test]
fn interior_cell_has_eight_neighbors_in_order() {
    let grid = grid(Neighborhood::Eight);
    let found = get_neighbors((2, 2), &grid);
    assert_eq!(
        found,
        vec![(2, 3), (2, 1), (3, 2), (1, 2), (1, 1), (3, 3), (1, 3), (3, 1)]
    );
    check_all(&found, &grid);
}

#[test]
fn interior_cell_has_four_straight_neighbors_in_order() {
    let grid = grid(Neighborhood::Four);
    let found = get_neighbors((2, 2), &grid);
    assert_eq!(found, vec![(2, 3), (2, 1), (3, 2), (1, 2)]);
    check_all(&found, &grid);
}

#[test]
fn edge_cell_has_no_neighbor_outside() {
    let eight = grid(Neighborhood::Eight);
    let found = get_neighbors((0, 2), &eight);
    assert_eq!(found, vec![(0, 3), (0, 1), (1, 2), (1, 3), (1, 1)]);
    check_all(&found, &eight);
    let four = grid(Neighborhood::Four);
    let found = get_neighbors((2, 4), &four);
    assert_eq!(found, vec![(2, 3), (3, 4), (1, 4)]);
    check_all(&found, &four);
}

#[test]
fn corner_cell_has_no_neighbor_outside() {
    let eight = grid(Neighborhood::Eight);
    assert_eq!(get_neighbors((0, 0), &eight), vec![(0, 1), (1, 0), (1, 1)]);
    assert_eq!(get_neighbors((4, 4), &eight), vec![(4, 3), (3, 4), (3, 3)]);
    assert_eq!(get_neighbors((0, 4), &eight), vec![(0, 3), (1, 4), (1, 3)]);
    assert_eq!(get_neighbors((4, 0), &eight), vec![(4, 1), (3, 0), (3, 1)]);
    let four = grid(Neighborhood::Four);
    assert_eq!(get_neighbors((0, 0), &four), vec![(0, 1), (1, 0)]);
    assert_eq!(get_neighbors((4, 4), &four), vec![(4, 3), (3, 4)]);
}

#[test]
fn walls_are_no_neighbors() {
    let mut grid = grid(Neighborhood::Eight);
    grid.set(2, 3, GridCellType::Wall).unwrap();
    grid.set(1, 1, GridCellType::Wall).unwrap();
    grid.set(3, 2, GridCellType::Wall).unwrap();
    let found = get_neighbors((2, 2), &grid);
    assert_eq!(found, vec![(2, 1), (1, 2), (3, 3), (1, 3), (3, 1)]);
    check_all(&found, &grid);
}

#[test]
fn markers_are_neighbors() {
    let grid = grid(Neighborhood::Eight);
    let found = get_neighbors((1, 1), &grid);
    assert!(found.contains(&(0, 0)));
    let found = get_neighbors((3, 3), &grid);
    assert!(found.contains(&(4, 4)));
}

#[test]
fn walled_in_cell_has_no_neighbors() {
    let mut grid = grid(Neighborhood::Four);
    grid.set(1, 2, GridCellType::Wall).unwrap();
    grid.set(3, 2, GridCellType::Wall).unwrap();
    grid.set(2, 1, GridCellType::Wall).unwrap();
    grid.set(2, 3, GridCellType::Wall).unwrap();
    assert_eq!(get_neighbors((2, 2), &grid), Vec::<(i32, i32)>::new());
}

#[test]
fn a_wall_cell_lists_its_own_neighbors() {
    let mut grid = grid(Neighborhood::Four);
    grid.set(2, 2, GridCellType::Wall).unwrap();
    assert_eq!(get_neighbors((2, 2), &grid), vec![(2, 3), (2, 1), (3, 2), (1, 2)]);
}

#[test]
fn positions_outside_list_the_cells_they_touch() {
    let grid = grid(Neighborhood::Eight);
    assert_eq!(get_neighbors((-1, -1), &grid), vec![(0, 0)]);
    assert_eq!(get_neighbors((5, 2), &grid), vec![(4, 2), (4, 1), (4, 3)]);
    assert_eq!(get_neighbors((7, 7), &grid), Vec::<(i32, i32)>::new());
    assert_eq!(get_neighbors((i32::MAX, i32::MAX), &grid), Vec::<(i32, i32)>::new());
    assert_eq!(get_neighbors((i32::MIN, i32::MIN), &grid), Vec::<(i32, i32)>::new());
}

#[test]
fn two_cell_grid_has_one_neighbor_each() {
    let grid = SearchableGrid::new(1, 2, (0, 0), (0, 1)).unwrap();
    assert_eq!(get_neighbors((0, 0), &grid), vec![(0, 1)]);
    assert_eq!(get_neighbors((0, 1), &grid), vec![(0, 0)]);
}
