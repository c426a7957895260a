use advent::day04::{star_one, star_two};

const TEST: &str = r#"
2-4,6-8
2-3,4-5
5-7,7-9
2-8,3-7
6-6,4-6
2-6,4-8
"#;

#[test]
fn day04_test_star_one() {
    assert_eq!(star_one(TEST), 2);
}

#[test]
fn day04_test_star_two() {
    assert_eq!(star_two(TEST), 4);
}
