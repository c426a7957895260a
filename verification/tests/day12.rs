use advent::day12::{star_one, star_two};

const INPUT: &str = r#"
Sabqponm
abcryxxl
accszExk
acctuvwj
abdefghi"#;

#[test]
fn day12_test_star_one() {
    assert_eq!(star_one(INPUT), 31);
}

#[test]
fn day12_test_star_two() {
    assert_eq!(star_two(INPUT), 29);
}
