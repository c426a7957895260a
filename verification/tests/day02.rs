use advent::day02::{star_one, star_two};

const TEST_INPUT: &str = r#"
A Y
B X
C Z
"#;

#[test]
fn day02_test_star_one() {
    assert_eq!(star_one(TEST_INPUT), 15);
}

#[test]
fn day02_test_star_two() {
    assert_eq!(star_two(TEST_INPUT), 12);
}
