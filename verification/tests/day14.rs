use advent::day14::{star_one, star_two};

const INPUT: &str = r#"
498,4 -> 498,6 -> 496,6
503,4 -> 502,4 -> 502,9 -> 494,9
"#;

#[test]
fn day14_test_star_one() {
    assert_eq!(star_one(INPUT), 24);
}

#[test]
fn day14_test_star_two() {
    assert_eq!(star_two(INPUT), 93);
}
