use advent::day08::{always, parse, star_one, star_two, Direction};

const INPUT: &str = r#"
30373
25512
65332
33549
35390
"#;

#[test]
fn day08_test_star_one() {
    assert_eq!(star_one(INPUT), 21);
}

#[test]
fn day08_test_star_two() {
    assert_eq!(star_two(INPUT), 8);
}

#[test]
fn test_scan_with_starting_point_up() {
    let grid = parse(INPUT);

    let result: Vec<_> = grid.scan(Direction::Up { x: 2 }, Some(4), |_, _| true);
    let expected = vec![(5, (2, 3)), (3, (2, 2)), (5, (2, 1)), (3, (2, 0))];
    assert_eq!(result, expected);

    let result: Vec<_> = grid.scan(Direction::Up { x: 2 }, Some(0), |_, _| true);
    let expected = vec![];
    assert_eq!(result, expected);
}

#[test]
fn test_scan_with_starting_point_left() {
    let grid = parse(INPUT);

    let result: Vec<_> = grid.scan(Direction::Left { y: 1 }, Some(3), |_, _| true);
    let expected = vec![(5, (2, 1)), (5, (1, 1)), (2, (0, 1))];
    assert_eq!(result, expected);

    let result: Vec<_> = grid.scan(Direction::Left { y: 1 }, Some(0), |_, _| true);
    let expected = vec![];
    assert_eq!(result, expected);
}

#[test]
fn test_scan_with_starting_point_down() {
    let grid = parse(INPUT);

    let result: Vec<_> = grid.scan(Direction::Down { x: 2 }, Some(3), |_, _| true);
    let expected = vec![(3, (2, 4))];

    assert_eq!(result, expected);

    let result: Vec<_> = grid.scan(Direction::Down { x: 2 }, Some(4), |_, _| true);
    let expected = vec![];

    assert_eq!(result, expected);
}

#[test]
fn test_scan_with_starting_point_right() {
    let grid = parse(INPUT);

    let result: Vec<_> = grid.scan(Direction::Right { y: 1 }, Some(3), |_, _| true);
    let expected = vec![(2, (4, 1))];

    assert_eq!(result, expected);

    let result: Vec<_> = grid.scan(Direction::Right { y: 1 }, Some(4), |_, _| true);
    let expected = vec![];

    assert_eq!(result, expected);
}

#[test]
fn scan_stops_at_the_first_tree_that_fails() {
    let grid = parse(INPUT);
    let all = grid.scan(Direction::Right { y: 0 }, None, always);
    assert_eq!(all, vec![(3, (0, 0)), (0, (1, 0)), (3, (2, 0)), (7, (3, 0)), (3, (4, 0))]);
    let low = grid.scan(Direction::Right { y: 0 }, None, |height, _| height < 7);
    assert_eq!(low, vec![(3, (0, 0)), (0, (1, 0)), (3, (2, 0))]);
}

#[test]
fn visible_trees_rise_from_the_edge() {
    let grid = parse(INPUT);
    assert_eq!(grid.visible_trees(Direction::Right { y: 1 }), vec![(0, 1), (1, 1)]);
    assert_eq!(grid.visible_trees(Direction::Left { y: 1 }), vec![(4, 1), (2, 1)]);
    assert_eq!(grid.visible_trees(Direction::Down { x: 3 }), vec![(3, 0), (3, 4)]);
    assert_eq!(grid.visible_trees(Direction::Up { x: 0 }), vec![(0, 4), (0, 2)]);
}

#[test]
fn range_walks_away_from_the_start() {
    assert_eq!(Direction::Up { x: 0 }.range(5, None), vec![4, 3, 2, 1, 0]);
    assert_eq!(Direction::Left { y: 0 }.range(5, Some(2)), vec![1, 0]);
    assert_eq!(Direction::Down { x: 0 }.range(5, Some(2)), vec![3, 4]);
    assert_eq!(Direction::Right { y: 0 }.range(5, None), vec![0, 1, 2, 3, 4]);
    assert!(Direction::Right { y: 0 }.range(5, Some(7)).is_empty());
    assert!(Direction::Left { y: 3 }.is_horizontal() && Direction::Right { y: 3 }.is_horizontal());
    assert!(Direction::Up { x: 3 }.is_vertical() && Direction::Down { x: 3 }.is_vertical());
    assert!(!Direction::Up { x: 3 }.is_horizontal() && !Direction::Left { y: 3 }.is_vertical());
}
