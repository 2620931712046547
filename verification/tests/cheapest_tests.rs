use pathfinder::{GridCellType, Heuristic, Neighborhood, SearchableGrid};

const FOUR: [(i32, i32); 4] = [(0, 1), (0, -1), (1, 0), (-1, 0)];
const EIGHT: [(i32, i32); 8] = [
    (0, 1),
    (0, -1),
    (1, 0),
    (-1, 0),
    (-1, -1),
    (1, 1),
    (-1, 1),
    (1, -1),
];

/// What a step costs: one, or the root of two if it is diagonal.
fn step(from: (i32, i32), to: (i32, i32)) -> f64 {
    if from.0 != to.0 && from.1 != to.1 {
        2f64.sqrt()
    } else {
        1.0
    }
}

/// Whether two costs are the same but for rounding.
fn same(a: f64, b: f64) -> bool {
    (a - b).abs() < 1e-9
}

/// The cost of the cheapest route by plain exhaustive relaxation.
fn cheapest_cost(grid: &SearchableGrid, start: (i32, i32), goal: (i32, i32)) -> Option<f64> {
    let rows = grid.rows();
    let cols = grid.cols();
    let steps: &[(i32, i32)] = match grid.neighborhood() {
        Neighborhood::Four => &FOUR,
        Neighborhood::Eight => &EIGHT,
    };
    let mut best = vec![vec![None::<f64>; cols as usize]; rows as usize];
    best[start.0 as usize][start.1 as usize] = Some(0.0);
    let mut changed = true;
    while changed {
        changed = false;
        for row in 0..rows {
            for col in 0..cols {
                let here = match best[row as usize][col as usize] {
                    Some(cost) => cost,
                    None => continue,
                };
                for by in steps {
                    let to = (row + by.0, col + by.1);
                    if !grid.contains(to) || grid.get(to.0, to.1) == Ok(GridCellType::Wall) {
                        continue;
                    }
                    let cost = here + step((row, col), to);
                    let known = best[to.0 as usize][to.1 as usize];
                    if known.map_or(true, |k| cost < k - 1e-9) {
                        best[to.0 as usize][to.1 as usize] = Some(cost);
                        changed = true;
                    }
                }
            }
        }
    }
    best[goal.0 as usize][goal.1 as usize]
}

fn cost(start: (i32, i32), path: &[(i32, i32)]) -> f64 {
    let mut total = 0.0;
    let mut at = start;
    for next in path {
        total += step(at, *next);
        at = *next;
    }
    total
}

/// A grid whose walls are scattered by a fixed rule, so that every run
/// sees the same grids.
fn scattered(rows: i32, cols: i32, seed: u64, neighborhood: Neighborhood) -> SearchableGrid {
    let mut grid =
        SearchableGrid::with_neighborhood(rows, cols, (0, 0), (rows - 1, cols - 1), neighborhood)
            .unwrap();
    let mut state = seed;
    for row in 0..rows {
        for col in 0..cols {
            state = state
                .wrapping_mul(6364136223846793005)
                .wrapping_add(1442695040888963407);
            if (state >> 33) % 10 < 3 {
                let _ = grid.set(row, col, GridCellType::Wall);
            }
        }
    }
    grid
}

fn check_cheapest(neighborhood: Neighborhood, heuristic: Heuristic) {
    let mut routes = 0;
    let mut dead_ends = 0;
    for seed in 0..60 {
        let (rows, cols) = if seed < 40 { (7, 9) } else { (23, 31) };
        let grid = scattered(rows, cols, seed, neighborhood);
        let start = grid.start();
        let goal = grid.end();
        let path = grid.astar_shortest_path(start, goal, heuristic);
        match cheapest_cost(&grid, start, goal) {
            Some(expected) => {
                assert!(!path.is_empty());
                assert_eq!(*path.last().unwrap(), goal);
                assert!(!path.contains(&start));
                assert!(same(cost(start, &path), expected));
                routes += 1;
            }
            None => {
                assert!(path.is_empty());
                dead_ends += 1;
            }
        }
    }
    assert!(routes > 0);
    assert!(dead_ends > 0);
}

#[test]
fn manhattan_finds_a_cheapest_route_with_straight_steps() {
    check_cheapest(Neighborhood::Four, Heuristic::Manhattan);
}

#[test]
fn euclidean_finds_a_cheapest_route_with_straight_steps() {
    check_cheapest(Neighborhood::Four, Heuristic::Euclidean);
}

#[test]
fn euclidean_finds_a_cheapest_route_with_diagonal_steps() {
    check_cheapest(Neighborhood::Eight, Heuristic::Euclidean);
}

#[test]
fn manhattan_with_diagonal_steps_finds_a_route_where_one_exists() {
    for seed in 0..40 {
        let grid = scattered(7, 9, seed, Neighborhood::Eight);
        let start = grid.start();
        let goal = grid.end();
        let path = grid.astar_shortest_path(start, goal, Heuristic::Manhattan);
        match cheapest_cost(&grid, start, goal) {
            Some(expected) => {
                assert!(!path.is_empty());
                assert_eq!(*path.last().unwrap(), goal);
                assert!(cost(start, &path) >= expected - 1e-9);
            }
            None => assert!(path.is_empty()),
        }
    }
}

#[test]
fn a_route_on_an_open_grid_has_as_many_steps_as_rows_and_columns_between() {
    let grid =
        SearchableGrid::with_neighborhood(6, 8, (0, 0), (5, 7), Neighborhood::Four).unwrap();
    for (start, goal) in [((0, 0), (5, 7)), ((5, 0), (0, 7)), ((3, 6), (2, 1)), ((4, 4), (4, 0))] {
        for heuristic in [Heuristic::Manhattan, Heuristic::Euclidean] {
            let path = grid.astar_shortest_path(start, goal, heuristic);
            let between = (start.0 - goal.0).abs() + (start.1 - goal.1).abs();
            assert_eq!(path.len() as i32, between);
            assert_eq!(
                1000 * path.len() as u64,
                SearchableGrid::manhatten_distance(start, goal)
            );
        }
    }
}
