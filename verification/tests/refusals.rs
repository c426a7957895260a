use advent::day05::{self, Kind};
use advent::day08;
use advent::day14;

fn chars(s: &str) -> Vec<char> {
    s.chars().collect()
}

#[test]
fn drawings_without_labels_are_refused() {
    assert!(day05::read("[a]\n 1 \n\nmove 1 from 1 to 2", Kind::CrateMover9000).is_some());
    // no blank line
    assert!(day05::read("[a]\n 1 \nmove 1 from 1 to 2", Kind::CrateMover9000).is_none());
    // the crate stands over no digit
    assert!(day05::read("[a]\n1  \n\n", Kind::CrateMover9000).is_none());
    assert!(day05::read("[a] [b]\n 1 \n\n", Kind::CrateMover9000).is_none());
    // no line of labels
    assert!(day05::read("\n\nmove 1 from 1 to 2", Kind::CrateMover9000).is_none());
    // an entry that is no command
    assert!(day05::read("[a]\n 1 \n\nmove 1 from 1\n", Kind::CrateMover9001).is_none());
    assert!(day05::read_state(&chars("")).is_none());
    let state = day05::read_state(&chars(" 1 2 ")).expect("labels alone");
    assert!(state.stacks.iter().all(|s| s.is_empty()));
    let (state, commands) = day05::read(" x \n[q]\n 7 \n\n\nmove 0 from 7 to 7\n", Kind::CrateMover9001).expect("a text");
    // every letter is a crate, with or without brackets
    assert_eq!(state.stacks[7], vec!['q', 'x']);
    assert_eq!(state.kind, Kind::CrateMover9001);
    assert_eq!(commands.len(), 1);
}

#[test]
fn patches_with_other_than_digits_are_refused() {
    assert!(day08::read("12\n3a").is_none());
    assert!(day08::read("1 2").is_none());
    let grid = day08::read(" 12 \n\n34\n").expect("a patch");
    assert_eq!(grid.grid, vec![vec![1, 2], vec![3, 4]]);
    assert!(day08::read("").expect("no tree").grid.is_empty());
    assert_eq!(day08::count_visible(&grid), 4);
    assert_eq!(day08::best_view(&grid), 0);
    let ring = day08::read("111\n121\n111").expect("a patch");
    assert_eq!(day08::count_visible(&ring), 9);
    assert_eq!(day08::best_view(&ring), 1);
    // the patch is as wide as its first row
    let ragged = day08::read("12\n345\n678").expect("a patch");
    assert_eq!(day08::count_visible(&ragged), 6);
    assert_eq!(day08::star_one("12\n345\n678"), 6);
    let pit = day08::read("222\n212\n222").expect("a patch");
    assert_eq!(day08::count_visible(&pit), 8);
}

#[test]
fn paths_that_bend_or_stay_are_refused() {
    assert!(day14::read("1,1 -> 2,2").is_none());
    assert!(day14::read("1,1 -> 1,1").is_none());
    assert!(day14::read("1,1 -> x,1").is_none());
    assert!(day14::read("1,1 -> ").is_none());
    assert!(day14::read("1,1 - > 1,2").is_none());
    assert!(day14::read("1,1\n\n 2,5->2,3 \n").is_some());
    assert_eq!(day14::read_corners(&chars("1,1 -> 1,3->4,3")).map(|c| c.len()), Some(3));
    assert!(day14::read_corners(&chars("")).is_none());
}
