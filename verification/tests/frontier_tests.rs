use pathfinder::frontier::lowest_position;
use pathfinder::{CoordMap, Score};

fn scores(entries: &[((i32, i32), u128)]) -> CoordMap<Score> {
    let mut map = CoordMap::<Score>::new();
    for (at, score) in entries {
        map.insert(*at, Score { whole: *score, root: 0 });
    }
    map
}

#[test]
fn the_lowest_score_is_picked() {
    let open = vec![(0, 0), (0, 1), (0, 2)];
    let f_score = scores(&[((0, 0), 5), ((0, 1), 3), ((0, 2), 4)]);
    assert_eq!(lowest_position(&open, &f_score), 1);
}

#[test]
fn of_equal_scores_the_first_is_picked() {
    let open = vec![(0, 0), (0, 1), (0, 2), (0, 3)];
    let f_score = scores(&[((0, 0), 5), ((0, 1), 3), ((0, 2), 3), ((0, 3), 3)]);
    assert_eq!(lowest_position(&open, &f_score), 1);
    let f_score = scores(&[((0, 0), 7), ((0, 1), 7), ((0, 2), 7), ((0, 3), 7)]);
    assert_eq!(lowest_position(&open, &f_score), 0);
}

#[test]
fn the_last_entry_is_picked_if_it_is_lowest() {
    let open = vec![(3, 3), (2, 2), (1, 1)];
    let f_score = scores(&[((3, 3), 9), ((2, 2), 8), ((1, 1), 7), ((0, 0), 1)]);
    assert_eq!(lowest_position(&open, &f_score), 2);
}

#[test]
fn a_single_entry_is_picked() {
    let open = vec![(4, 4)];
    let f_score = scores(&[((4, 4), u128::MAX)]);
    assert_eq!(lowest_position(&open, &f_score), 0);
}

#[test]
fn scores_with_roots_are_told_apart() {
    let open = vec![(0, 0), (0, 1), (0, 2)];
    let mut f_score = CoordMap::<Score>::new();
    // 60.828.., 60.811.. and 60.9
    f_score.insert((0, 0), Score { whole: 58000, root: 2000 });
    f_score.insert((0, 1), Score { whole: 0, root: 43000 });
    f_score.insert((0, 2), Score { whole: 60900, root: 0 });
    assert_eq!(lowest_position(&open, &f_score), 1);
}
