use advent::day01::{star_one, star_two};

const TEST_INPUT: &str = r#"""
1000
2000
3000

4000

5000
6000

7000
8000
9000

10000
"""#;

#[test]
fn day01_test_star_one() {
    assert_eq!(star_one(TEST_INPUT), 24000);
}

#[test]
fn day01_test_star_two() {
    assert_eq!(star_two(TEST_INPUT), 45000);
}
