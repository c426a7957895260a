use advent::day03::{star_one, star_two};

const TEST: &str = r#"
vJrwpWtwJgWrhcsFMMfFFhFp
jqHRNqRjqzjGDLGLrsFMfFZSrLrFZsSL
PmmdzqPrVvPwwTWBwg
wMqvLMZHhHMvwLHjbvcjnnSBnvTQFn
ttgJtRGJQctTZtZT
CrZsJsPPZsGzwwsLwLmpwMDw
"#;

#[test]
fn day03_test_star_one() {
    assert_eq!(star_one(TEST), 157);
}

#[test]
fn day03_test_star_two() {
    assert_eq!(star_two(TEST), 70);
}
