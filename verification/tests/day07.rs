use advent::day07::{star_one, star_two};

const TEST_INPUT: &str = r#"
$ cd /
$ ls
dir a
14848514 b.txt
8504156 c.dat
dir d
$ cd a
$ ls
dir e
29116 f
2557 g
62596 h.lst
$ cd e
$ ls
584 i
$ cd ..
$ cd ..
$ cd d
$ ls
4060174 j
8033020 d.log
5626152 d.ext
7214296 k
"#;

#[test]
fn day07_test_star_one() {
    assert_eq!(star_one(TEST_INPUT), 95437);
}

#[test]
fn day07_test_star_two() {
    assert_eq!(star_two(TEST_INPUT), 24933642);
}
