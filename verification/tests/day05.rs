use advent::day05::{star_one, star_two};

const INPUT: &str = r#"
    [D]    
[N] [C]    
[Z] [M] [P]
 1   2   3 

move 1 from 2 to 1
move 3 from 1 to 3
move 2 from 2 to 1
move 1 from 1 to 2
"#;

#[test]
fn day05_test_star_one() {
    assert_eq!(star_one(INPUT), "CMZ");
}

#[test]
fn day05_test_star_two() {
    assert_eq!(star_two(INPUT), "MCD");
}
