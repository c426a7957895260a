use advent::day09::{star_one, star_two};

const INPUT_STAR_ONE: &str = r#"
R 4
U 4
L 3
D 1
R 4
D 1
L 5
R 2"#;

const INPUT_STAR_TWO: &str = r#"
R 5
U 8
L 8
D 3
R 17
D 10
L 25
U 20"#;

#[test]
fn day09_test_star_one() {
    assert_eq!(star_one(INPUT_STAR_ONE), 13);
}

#[test]
fn day09_test_star_two() {
    assert_eq!(star_two(INPUT_STAR_ONE), 1);
    assert_eq!(star_two(INPUT_STAR_TWO), 36);
}
