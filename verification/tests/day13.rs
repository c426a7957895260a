use advent::day13::{slice_balanced, star_one, star_two, Item, Pair};

const INPUT: &str = r#"
        [1,1,3,1,1]
        [1,1,5,1,1]

        [[1],[2,3,4]]
        [[1],4]

        [9]
        [[8,7,6]]

        [[4,4],4,4]
        [[4,4],4,4,4]

        [7,7,7,7]
        [7,7,7]

        []
        [3]

        [[[]]]
        [[]]

        [1,[2,[3,[4,[5,6,7]]]],8,9]
        [1,[2,[3,[4,[5,6,0]]]],8,9]
    "#;

#[test]
fn day13_test_star_one() {
    assert_eq!(star_one(INPUT), 13);
}

#[test]
fn day13_test_star_two() {
    assert_eq!(star_two(INPUT), 140);
}

#[test]
fn test_item_parse_list() {
    let result = Item::parse_items("[[1],[2,3,4]]");

    assert!(result.is_ok());
}

#[test]
fn test_item_parse_list_complex() {
    let result = Item::parse_items("[[[[],[6,0,7],[],[5]],9]]");

    assert!(result.is_ok());
}

#[test]
fn test_slice_balanced() {
    let (item, rest) = slice_balanced("[2, 3, 4]", ('[', ']')).expect("Should slice");

    assert_eq!(item, "[2, 3, 4]");
    assert_eq!(rest, "");
}

#[test]
fn test_2() {
    let first = Item::List(Item::parse_items("[[1],[2,3,4]]").expect("left"));
    let second = Item::List(Item::parse_items("[[1],4]").expect("right"));
    let pair = Pair { first, second };

    assert!(pair.in_order());
}

#[test]
fn test_5() {
    let first = Item::List(Item::parse_items("[7,7,7,7]").expect("left"));
    let second = Item::List(Item::parse_items("[7,7,7]").expect("right"));
    let pair = Pair { first, second };

    assert!(!pair.in_order());
}

struct Case {
    input: &'static str,
    in_order: bool,
}

#[test]
fn extensive_tests() {
    let cases = &[
        Case {
            input: r#"
                    [5,6,6,7,3]
                    [5,6,6,7]"#,
            in_order: false,
        },
        Case {
            input: r#"
                    [[7, 6, 5], [9, 1]]
                    [[[3, 2, [1, 0, 9, 2, 7], 4, 2], [[4, 10, 3, 4], 6, [0, 4]], [], [9, [1, 0], []]], [], [5, [4, [4, 10, 9, 6, 3], 3], [[8, 2, 8], [10, 7, 7, 1], 10, [], 5], [9], 9], [0, 7, 3, 5, 10]]
"#,
            in_order: false,
        },
        Case {
            input: r#"
                    [[3, [7], [0], 7]]
                    [[5, 2]]
                "#,
            in_order: true,
        },
        Case {
            input: r#"
                    [[[[6, 1, 4, 1], 8, 6, 10, [5, 3, 9, 10]], [[], 4, 0], 9], [4, 1, 7, 6], [[5, [3, 8, 1, 4, 6], 1, []], 7]]
                    [[], [7, [], [1, [6, 10, 5, 3], [1], 7, [9, 0, 5, 0, 5]], [7, 5, 4, 3], [[4, 7, 6], [], 4, [8, 9, 2, 9, 3]]], [[0, [], [8, 4, 8], 1], 4, 0, [6, [8, 10, 1, 8, 2], 3, 6]], []]
                "#,
            in_order: false,
        },
        Case {
            input: r#"
                    [[3, [7], [0], 7]]
                    [[5, 2]]
                "#,
            in_order: true,
        },
        Case {
            input: r#"
                    [[4, 2, [[4, 3], 2, [4, 5, 5, 1, 1]]], [[8, [7], [9, 7], 4, [0, 3, 8, 6]], 0], [5], [2, 2, [10, 10, [3, 6, 10, 2, 5], [], 0]]]
                    [[[[6, 3, 2, 2, 6], 1, [0, 2, 5, 9, 4], [6], [2]], 9, [7, 3]], [[[7], 7, 4, 2, 2], 5, 6, [3], 3]]
                "#,
            in_order: true,
        },
        Case {
            input: r#"
                    [[1, 4, 6, []]]
                    [[1, 3], [2], [6, 6, 0, [5, [], 9]], [[2, [1, 4, 5], [6], [5, 10, 9, 4]], [7, 4, 6, [2, 6, 8, 9], [5, 6]], [[8], []], [[9, 5, 6], []], 8], [[0, [2, 9, 6, 3], [5, 3]]]]
                "#,
            in_order: false,
        },
        Case {
            input: r#"
                    [[[[1, 7, 4, 3, 2], 4, 8, [2, 2, 6], 4], 6, 6], [3, 3, 3, 1, 5], [[1]], [10, []], [2]]
                    [[[], 3], [[], 7], [8, 0, 8], [8, 2]]
                "#,
            in_order: false,
        },
        Case {
            input: r#"
                    [1, 2, 3, 4, 4]
                    [1, 2, 3, 4, [5]]
                "#,
            in_order: true,
        },
        Case {
            input: r#"
                    [[1], 3]
                    [1, 2]
                "#,
            in_order: false,
        },
        Case {
            input: r#"
                    [[1, [2, [10, 8, 2, 1, 1]], 0]]
                    [[[1]], [[[2, 4, 10, 2], []], 3, 8], [9, 3, [5, [3, 0], [0], [4]], 6, [[9, 8, 3, 7], 4, [10, 10, 8], 10, [6, 6]]], [[[3], 7, [], [10, 5]], 0], [5, [[3, 9, 0, 2, 1], 0, [4, 5, 2], [6]]]]
                "#,
            in_order: false,
        },
        Case {
            input: r#"
                    [[[[7], [2, 5], [4, 1, 10, 9]], [[], [6, 0, 2, 1], [0], [7, 0], 9], 8, [6], 9], [4, [], []], [2]]
                    [[7], [[6, 6]]]
                "#,
            in_order: false,
        },
    ];

    for case in cases {
        let mut lines = case.input.lines().map(str::trim).filter(|l| !l.is_empty());
        let pair = Pair {
            first: Item::List(
                lines
                    .next()
                    .and_then(|l| Item::parse_items(l).ok())
                    .unwrap(),
            ),
            second: Item::List(
                lines
                    .next()
                    .and_then(|l| Item::parse_items(l).ok())
                    .unwrap(),
            ),
        };

        assert_eq!(
            pair.in_order(),
            case.in_order,
            "Wrong order for {}, expected in_order={}",
            case.input,
            case.in_order
        );
    }
}
