use pathfinder::{cost_of_step, Heuristic, Score, SearchableGrid, STRAIGHT_COST};

#[test]
fn manhattan_counts_rows_and_columns_in_thousandths() {
    assert_eq!(SearchableGrid::manhatten_distance((0, 0), (4, 4)), 8000);
    assert_eq!(SearchableGrid::manhatten_distance((4, 4), (0, 0)), 8000);
    assert_eq!(SearchableGrid::manhatten_distance((1, 5), (3, 2)), 5000);
    assert_eq!(SearchableGrid::manhatten_distance((-2, 3), (2, -3)), 10000);
    assert_eq!(SearchableGrid::manhatten_distance((7, 7), (7, 7)), 0);
}

#[test]
fn manhattan_of_the_farthest_corners() {
    assert_eq!(
        SearchableGrid::manhatten_distance((i32::MIN, i32::MIN), (i32::MAX, i32::MAX)),
        8_589_934_590_000
    );
}

#[test]
fn euclidean_is_the_straight_line_in_thousandths_rounded_down() {
    assert_eq!(SearchableGrid::euclidean_distance((0, 0), (3, 4)), 5000);
    assert_eq!(SearchableGrid::euclidean_distance((3, 4), (0, 0)), 5000);
    assert_eq!(SearchableGrid::euclidean_distance((0, 0), (1, 1)), 1414);
    assert_eq!(SearchableGrid::euclidean_distance((0, 0), (4, 4)), 5656);
    assert_eq!(SearchableGrid::euclidean_distance((1, 1), (3, 4)), 3605);
    assert_eq!(SearchableGrid::euclidean_distance((0, 0), (0, 7)), 7000);
    assert_eq!(SearchableGrid::euclidean_distance((-5, 2), (-5, 2)), 0);
}

#[test]
fn euclidean_of_the_farthest_corners() {
    assert_eq!(
        SearchableGrid::euclidean_distance((i32::MIN, i32::MIN), (i32::MAX, i32::MAX)),
        6_074_000_998_537
    );
    assert_eq!(
        SearchableGrid::euclidean_distance((i32::MIN, 0), (i32::MAX, 0)),
        4_294_967_295_000
    );
}

#[test]
fn euclidean_square_brackets_the_squared_distance() {
    for (a, b) in [((0, 0), (1, 2)), ((5, -3), (-2, 9)), ((100, 100), (0, 1))] {
        let d = SearchableGrid::euclidean_distance(a, b) as u128;
        let rows = (a.0 as i64 - b.0 as i64).unsigned_abs() as u128;
        let cols = (a.1 as i64 - b.1 as i64).unsigned_abs() as u128;
        let squared = 1_000_000 * (rows * rows + cols * cols);
        assert!(d * d <= squared);
        assert!(squared < (d + 1) * (d + 1));
    }
}

#[test]
fn a_heuristic_estimates_by_its_own_distance() {
    assert_eq!(Heuristic::Manhattan.estimate((0, 0), (3, 4)), 7000);
    assert_eq!(Heuristic::Manhattan.estimate((2, 2), (2, 2)), 0);
    assert_eq!(Heuristic::Euclidean.estimate((2, 2), (2, 2)), 0);
}

#[test]
fn the_straight_line_estimate_is_shortened_by_a_thousandth() {
    assert_eq!(Heuristic::Euclidean.estimate((0, 0), (3, 4)), 4995);
    assert_eq!(Heuristic::Euclidean.estimate((0, 0), (1, 1)), 1412);
    assert_eq!(Heuristic::Euclidean.estimate((0, 0), (0, 1)), 999);
    assert_eq!(Heuristic::Euclidean.estimate((0, 0), (4, 4)), 5650);
    assert_eq!(
        Heuristic::Euclidean.estimate((i32::MIN, i32::MIN), (i32::MAX, i32::MAX)),
        6_067_926_997_538
    );
}

#[test]
fn the_straight_line_estimate_never_falls_by_more_than_a_step_costs() {
    let goal = (0, 0);
    for row in 0..60 {
        for col in 0..60 {
            let here = Heuristic::Euclidean.estimate((row, col), goal);
            for (dr, dc) in [(0, 1), (1, 0), (0, -1), (-1, 0)] {
                let there = Heuristic::Euclidean.estimate((row + dr, col + dc), goal);
                assert!(here <= there + 1000);
            }
            for (dr, dc) in [(1, 1), (1, -1), (-1, 1), (-1, -1)] {
                let there = Heuristic::Euclidean.estimate((row + dr, col + dc), goal);
                assert!(here <= there + 1414);
            }
        }
    }
}

#[test]
fn a_straight_step_costs_a_thousand_and_a_diagonal_one_root_two_as_much() {
    assert_eq!(STRAIGHT_COST, 1000);
    let straight = Score { whole: 1000, root: 0 };
    let diagonal = Score { whole: 0, root: 1000 };
    assert_eq!(cost_of_step((2, 2), (2, 3)), straight);
    assert_eq!(cost_of_step((2, 2), (1, 2)), straight);
    assert_eq!(cost_of_step((2, 2), (3, 3)), diagonal);
    assert_eq!(cost_of_step((2, 2), (1, 3)), diagonal);
    assert_eq!(cost_of_step((2, 2), (1, 1)), diagonal);
}

#[test]
fn costs_are_compared_without_rounding_the_root_of_two() {
    let cost = |straight: u128, diagonal: u128| Score { whole: 1000 * straight, root: 1000 * diagonal };
    // One diagonal step lies between one and two straight steps.
    assert!(cost(1, 0).no_more_than(cost(0, 1)));
    assert!(!cost(0, 1).no_more_than(cost(1, 0)));
    assert!(cost(0, 1).no_more_than(cost(2, 0)));
    assert!(!cost(2, 0).no_more_than(cost(0, 1)));
    // 70 diagonal steps are 98.99.., 99 straight steps are more.
    assert!(cost(0, 70).no_more_than(cost(99, 0)));
    assert!(!cost(99, 0).no_more_than(cost(0, 70)));
    // 43 diagonal steps are 60.811.., 58 straight and 2 diagonal ones 60.828...
    assert!(cost(0, 43).no_more_than(cost(58, 2)));
    assert!(!cost(58, 2).no_more_than(cost(0, 43)));
    // 7 straight steps are less than 5 diagonal ones, which are 7.07...
    assert!(cost(7, 0).no_more_than(cost(0, 5)));
    assert!(!cost(0, 5).no_more_than(cost(7, 0)));
    // Equal costs are no more than each other.
    assert!(cost(3, 4).no_more_than(cost(3, 4)));
    assert!(cost(0, 0).no_more_than(cost(0, 0)));
    // Mixed: 10 + 3·1.414 = 14.24 against 3 + 8·1.414 = 14.31.
    assert!(cost(10, 3).no_more_than(cost(3, 8)));
    assert!(!cost(3, 8).no_more_than(cost(10, 3)));
}

#[test]
fn costs_are_compared_exactly_however_large() {
    // The root of two times ten to the eighteenth is 1414213562373095048.8...
    let root = Score { whole: 0, root: 1_000_000_000_000_000_000 };
    let below = Score { whole: 1_414_213_562_373_095_048, root: 0 };
    let above = Score { whole: 1_414_213_562_373_095_049, root: 0 };
    assert!(below.no_more_than(root));
    assert!(!root.no_more_than(below));
    assert!(root.no_more_than(above));
    assert!(!above.no_more_than(root));
}
