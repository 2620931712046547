use pathfinder::{CoordMap, CoordSet, GridCellType, Heuristic, Neighborhood, SearchableGrid};

fn open_grid(neighborhood: Neighborhood) -> SearchableGrid {
    SearchableGrid::with_neighborhood(5, 5, (0, 0), (4, 4), neighborhood).unwrap()
}

fn wall_row(grid: &mut SearchableGrid, row: i32, gap: Option<i32>) {
    for col in 0..grid.cols() {
        if Some(col) != gap {
            grid.set(row, col, GridCellType::Wall).unwrap();
        }
    }
}

/// The straight and the diagonal steps of a route.
fn steps(start: (i32, i32), path: &[(i32, i32)]) -> (usize, usize) {
    let mut straight = 0;
    let mut diagonal = 0;
    let mut at = start;
    for next in path {
        if at.0 != next.0 && at.1 != next.1 {
            diagonal += 1;
        } else {
            straight += 1;
        }
        at = *next;
    }
    (straight, diagonal)
}

fn check_route(grid: &SearchableGrid, start: (i32, i32), goal: (i32, i32), path: &[(i32, i32)]) {
    assert!(!path.is_empty());
    assert!(!path.contains(&start));
    assert_eq!(*path.last().unwrap(), goal);
    let mut at = start;
    for next in path {
        let rows = (next.0 - at.0).abs();
        let cols = (next.1 - at.1).abs();
        match grid.neighborhood() {
            Neighborhood::Four => assert_eq!(rows + cols, 1),
            Neighborhood::Eight => assert_eq!(rows.max(cols), 1),
        }
        assert!(grid.contains(*next));
        assert_ne!(grid.get(next.0, next.1), Ok(GridCellType::Wall));
        at = *next;
    }
}

#[test]
fn open_grid_with_straight_steps_takes_the_manhattan_distance() {
    let grid = open_grid(Neighborhood::Four);
    let path = grid.astar_shortest_path((0, 0), (4, 4), Heuristic::Manhattan);
    assert_eq!(path.len(), 8);
    check_route(&grid, (0, 0), (4, 4), &path);
    assert_eq!(steps((0, 0), &path), (8, 0));
    assert_eq!(
        1000 * path.len() as u64,
        SearchableGrid::manhatten_distance((0, 0), (4, 4))
    );
}

#[test]
fn open_grid_with_diagonal_steps_takes_the_diagonal() {
    let grid = open_grid(Neighborhood::Eight);
    let path = grid.astar_shortest_path((0, 0), (4, 4), Heuristic::Euclidean);
    assert_eq!(path, vec![(1, 1), (2, 2), (3, 3), (4, 4)]);
    assert_eq!(steps((0, 0), &path), (0, 4));
}

#[test]
fn ties_go_to_the_cell_found_first() {
    let grid = SearchableGrid::with_neighborhood(2, 2, (0, 0), (1, 1), Neighborhood::Four).unwrap();
    let path = grid.astar_shortest_path((0, 0), (1, 1), Heuristic::Manhattan);
    assert_eq!(path, vec![(0, 1), (1, 1)]);
}

#[test]
fn a_row_of_walls_leaves_no_route() {
    for neighborhood in [Neighborhood::Four, Neighborhood::Eight] {
        for heuristic in [Heuristic::Manhattan, Heuristic::Euclidean] {
            let mut grid = open_grid(neighborhood);
            wall_row(&mut grid, 2, None);
            let path = grid.astar_shortest_path((0, 0), (4, 4), heuristic);
            assert_eq!(path, Vec::<(i32, i32)>::new());
            let back = grid.astar_shortest_path((4, 4), (0, 0), heuristic);
            assert_eq!(back, Vec::<(i32, i32)>::new());
        }
    }
}

#[test]
fn a_gap_in_the_wall_is_found() {
    let mut grid = open_grid(Neighborhood::Four);
    wall_row(&mut grid, 2, Some(4));
    let path = grid.astar_shortest_path((0, 0), (4, 0), Heuristic::Manhattan);
    check_route(&grid, (0, 0), (4, 0), &path);
    assert!(path.contains(&(2, 4)));
    assert_eq!(path.len(), 12);
    assert_eq!(steps((0, 0), &path), (12, 0));
}

#[test]
fn a_gap_in_the_wall_is_found_with_diagonal_steps() {
    let mut grid = open_grid(Neighborhood::Eight);
    wall_row(&mut grid, 2, Some(4));
    let path = grid.astar_shortest_path((0, 0), (4, 0), Heuristic::Euclidean);
    check_route(&grid, (0, 0), (4, 0), &path);
    assert!(path.contains(&(2, 4)));
    assert_eq!(path.len(), 8);
    assert_eq!(steps((0, 0), &path), (4, 4));
}

#[test]
fn a_search_said_twice_finds_the_same_route() {
    let mut grid = open_grid(Neighborhood::Eight);
    wall_row(&mut grid, 1, Some(3));
    grid.set(3, 3, GridCellType::Wall).unwrap();
    for heuristic in [Heuristic::Manhattan, Heuristic::Euclidean] {
        let first = grid.astar_shortest_path((0, 0), (4, 4), heuristic);
        let second = grid.astar_shortest_path((0, 0), (4, 4), heuristic);
        let third = grid.astar_shortest_path((0, 0), (4, 4), heuristic);
        assert!(!first.is_empty());
        assert_eq!(first, second);
        assert_eq!(second, third);
    }
}

#[test]
fn equal_grids_give_equal_routes() {
    let mut one = open_grid(Neighborhood::Four);
    let mut other = open_grid(Neighborhood::Four);
    for grid in [&mut one, &mut other] {
        wall_row(grid, 3, Some(0));
        grid.set(1, 1, GridCellType::Wall).unwrap();
    }
    assert_eq!(
        one.astar_shortest_path((0, 0), (4, 4), Heuristic::Manhattan),
        other.astar_shortest_path((0, 0), (4, 4), Heuristic::Manhattan)
    );
}

#[test]
fn the_route_names_the_goal_and_not_the_start() {
    let grid = SearchableGrid::with_neighborhood(1, 4, (0, 0), (0, 3), Neighborhood::Four).unwrap();
    let path = grid.astar_shortest_path((0, 0), (0, 3), Heuristic::Manhattan);
    assert_eq!(path, vec![(0, 1), (0, 2), (0, 3)]);
    assert!(!path.contains(&(0, 0)));
    assert_eq!(path.last(), Some(&(0, 3)));
}

#[test]
fn a_neighbor_of_the_start_is_one_step_away() {
    let grid = open_grid(Neighborhood::Eight);
    assert_eq!(
        grid.astar_shortest_path((2, 2), (3, 3), Heuristic::Euclidean),
        vec![(3, 3)]
    );
    assert_eq!(
        grid.astar_shortest_path((2, 2), (2, 1), Heuristic::Manhattan),
        vec![(2, 1)]
    );
}

#[test]
fn no_step_leads_from_a_cell_to_itself() {
    let grid = open_grid(Neighborhood::Eight);
    let path = grid.astar_shortest_path((2, 2), (2, 2), Heuristic::Manhattan);
    assert_eq!(path, Vec::<(i32, i32)>::new());
}

#[test]
fn no_route_leads_outside_the_grid() {
    let grid = open_grid(Neighborhood::Eight);
    let empty = Vec::<(i32, i32)>::new();
    assert_eq!(grid.astar_shortest_path((0, 0), (5, 5), Heuristic::Manhattan), empty);
    assert_eq!(grid.astar_shortest_path((-1, 0), (4, 4), Heuristic::Manhattan), empty);
    assert_eq!(grid.astar_shortest_path((0, 5), (0, -1), Heuristic::Euclidean), empty);
}

#[test]
fn no_route_leads_onto_a_wall() {
    let mut grid = open_grid(Neighborhood::Eight);
    grid.set(2, 2, GridCellType::Wall).unwrap();
    let path = grid.astar_shortest_path((0, 0), (2, 2), Heuristic::Euclidean);
    assert_eq!(path, Vec::<(i32, i32)>::new());
}

#[test]
fn a_route_may_set_out_from_a_wall() {
    let mut grid = open_grid(Neighborhood::Four);
    grid.set(2, 2, GridCellType::Wall).unwrap();
    let path = grid.astar_shortest_path((2, 2), (2, 4), Heuristic::Manhattan);
    assert_eq!(path, vec![(2, 3), (2, 4)]);
}

#[test]
fn the_search_follows_the_markers_of_the_grid() {
    let mut grid = SearchableGrid::with_neighborhood(3, 3, (0, 0), (2, 2), Neighborhood::Four)
        .unwrap();
    grid.update_end_point((0, 2)).unwrap();
    let path = grid.astar_shortest_path(grid.start(), grid.end(), Heuristic::Manhattan);
    assert_eq!(path, vec![(0, 1), (0, 2)]);
    grid.set(0, 1, GridCellType::Wall).unwrap();
    let path = grid.astar_shortest_path(grid.start(), grid.end(), Heuristic::Manhattan);
    assert_eq!(path, vec![(1, 0), (1, 1), (1, 2), (0, 2)]);
}

#[test]
fn the_forty_by_forty_grid_is_crossed_on_the_diagonal() {
    let grid = SearchableGrid::new(40, 40, (0, 0), (39, 39)).unwrap();
    let path = grid.astar_shortest_path((0, 0), (39, 39), Heuristic::Euclidean);
    assert_eq!(path.len(), 39);
    for (i, at) in path.iter().enumerate() {
        assert_eq!(*at, (i as i32 + 1, i as i32 + 1));
    }
}

#[test]
fn reconstruct_walks_the_links_back_and_turns_them_round() {
    let mut came_from = CoordMap::<(i32, i32)>::new();
    came_from.insert((0, 1), (0, 0));
    came_from.insert((1, 1), (0, 1));
    came_from.insert((2, 2), (1, 1));
    came_from.insert((5, 5), (2, 2));
    assert_eq!(
        SearchableGrid::reconstruct_path(came_from, (2, 2)),
        vec![(0, 1), (1, 1), (2, 2)]
    );
}

#[test]
fn reconstruct_from_a_cell_without_predecessor_is_empty() {
    let mut came_from = CoordMap::<(i32, i32)>::new();
    came_from.insert((0, 1), (0, 0));
    assert_eq!(
        SearchableGrid::reconstruct_path(came_from, (0, 0)),
        Vec::<(i32, i32)>::new()
    );
    let nothing = CoordMap::<(i32, i32)>::new();
    assert_eq!(
        SearchableGrid::reconstruct_path(nothing, (3, 3)),
        Vec::<(i32, i32)>::new()
    );
}

#[test]
fn reconstruct_of_one_link_names_the_cell_only() {
    let mut came_from = CoordMap::<(i32, i32)>::new();
    came_from.insert((0, 1), (0, 0));
    assert_eq!(SearchableGrid::reconstruct_path(came_from, (0, 1)), vec![(0, 1)]);
}

#[test]
fn coord_map_keeps_coordinates_apart() {
    let mut map = CoordMap::<u128>::new();
    assert_eq!(map.get((0, 0)), None);
    map.insert((0, 1), 10);
    map.insert((1, 0), 20);
    map.insert((-1, 0), 30);
    map.insert((0, -1), 40);
    map.insert((i32::MIN, i32::MAX), 50);
    map.insert((i32::MAX, i32::MIN), 60);
    assert_eq!(map.get((0, 1)), Some(10));
    assert_eq!(map.get((1, 0)), Some(20));
    assert_eq!(map.get((-1, 0)), Some(30));
    assert_eq!(map.get((0, -1)), Some(40));
    assert_eq!(map.get((i32::MIN, i32::MAX)), Some(50));
    assert_eq!(map.get((i32::MAX, i32::MIN)), Some(60));
    assert_eq!(map.get((0, 0)), None);
    assert!(map.contains_key((0, 1)));
    assert!(!map.contains_key((1, 1)));
    map.insert((0, 1), 11);
    assert_eq!(map.get((0, 1)), Some(11));
    assert_eq!(map.get((1, 0)), Some(20));
}

#[test]
fn coord_set_counts_each_coordinate_once() {
    let mut set = CoordSet::new();
    assert_eq!(set.len(), 0);
    assert!(!set.contains((0, 0)));
    set.insert((0, 0));
    set.insert((0, 1));
    set.insert((1, 0));
    set.insert((0, 0));
    set.insert((-1, -1));
    assert_eq!(set.len(), 4);
    assert!(set.contains((0, 0)));
    assert!(set.contains((0, 1)));
    assert!(set.contains((1, 0)));
    assert!(set.contains((-1, -1)));
    assert!(!set.contains((1, 1)));
}

#[test]
fn reconstruct_gives_up_on_links_that_run_in_a_circle() {
    let mut came_from = CoordMap::<(i32, i32)>::new();
    came_from.insert((0, 0), (0, 1));
    came_from.insert((0, 1), (0, 2));
    came_from.insert((0, 2), (0, 0));
    came_from.insert((3, 3), (0, 0));
    came_from.insert((4, 4), (4, 3));
    assert_eq!(
        SearchableGrid::reconstruct_path(came_from, (0, 0)),
        Vec::<(i32, i32)>::new()
    );
    let mut came_from = CoordMap::<(i32, i32)>::new();
    came_from.insert((0, 0), (0, 1));
    came_from.insert((0, 1), (0, 0));
    came_from.insert((3, 3), (0, 0));
    came_from.insert((4, 4), (4, 3));
    assert_eq!(
        SearchableGrid::reconstruct_path(came_from, (3, 3)),
        Vec::<(i32, i32)>::new()
    );
    let mut came_from = CoordMap::<(i32, i32)>::new();
    came_from.insert((1, 1), (1, 1));
    assert_eq!(
        SearchableGrid::reconstruct_path(came_from, (1, 1)),
        Vec::<(i32, i32)>::new()
    );
}

#[test]
fn reconstruct_walks_every_entry_of_a_long_chain() {
    let mut came_from = CoordMap::<(i32, i32)>::new();
    for col in 1..50 {
        came_from.insert((0, col), (0, col - 1));
    }
    let path = SearchableGrid::reconstruct_path(came_from, (0, 49));
    assert_eq!(path.len(), 49);
    for (i, at) in path.iter().enumerate() {
        assert_eq!(*at, (0, i as i32 + 1));
    }
}

#[test]
fn coord_map_counts_its_entries() {
    let mut map = CoordMap::<u128>::new();
    assert_eq!(map.len(), 0);
    map.insert((0, 1), 10);
    map.insert((1, 0), 20);
    map.insert((0, 1), 30);
    map.insert((-1, -1), 40);
    assert_eq!(map.len(), 3);
}

/// A grid of walls through which two ways lead from (9, 0) to (10, 43):
/// a zigzag of 43 diagonal steps, and a way round the rim of 58 straight
/// and 2 diagonal steps.
fn zigzag_and_rim() -> SearchableGrid {
    let mut grid = SearchableGrid::new(11, 44, (9, 0), (10, 43)).unwrap();
    for row in 0..11 {
        for col in 0..44 {
            let rim = (col == 0 && (1..=9).contains(&row))
                || (row == 0 && (1..=42).contains(&col))
                || (col == 43 && (1..=10).contains(&row));
            let zigzag = (1..=42).contains(&col)
                && ((row == 10 && col % 2 == 1) || (row == 9 && col % 2 == 0));
            if !rim && !zigzag {
                let _ = grid.set(row, col, GridCellType::Wall);
            }
        }
    }
    grid
}

#[test]
fn many_diagonal_steps_beat_a_few_more_straight_ones() {
    let grid = zigzag_and_rim();
    let path = grid.astar_shortest_path((9, 0), (10, 43), Heuristic::Euclidean);
    // 43 times the root of two is 60.811.., 58 and twice the root is 60.828...
    assert_eq!(steps((9, 0), &path), (0, 43));
    for (i, at) in path.iter().enumerate() {
        let col = i as i32 + 1;
        let row = if col % 2 == 1 { 10 } else { 9 };
        assert_eq!(*at, (row, col));
    }
}

#[test]
fn the_way_round_the_rim_is_taken_where_the_zigzag_is_shut() {
    let mut grid = zigzag_and_rim();
    grid.set(9, 20, GridCellType::Wall).unwrap();
    let path = grid.astar_shortest_path((9, 0), (10, 43), Heuristic::Euclidean);
    check_route(&grid, (9, 0), (10, 43), &path);
    assert_eq!(steps((9, 0), &path), (58, 2));
}
