use advent::day01;
use advent::day02::{self, Action, Outcome};
use advent::day03;
use advent::day04::{self, Assignment};
use advent::day05::{self, Command, Kind, State};
use advent::day06;
use advent::day09::{self, Direction};
use advent::math::Vector2;
use advent::day10::{self, Machine, Op, Register};
use advent::day11::{self, Monkey, Operation, Test};

fn chars(s: &str) -> Vec<char> {
    s.chars().collect()
}

#[test]
fn loads_are_summed_by_group_and_bad_lines_count_as_nothing() {
    assert_eq!(day01::parse("1\n2\n\n3\n\nx\n\n\n4"), vec![3, 3, 0, 4]);
    assert_eq!(day01::parse(""), vec![0]);
    assert_eq!(day01::group_sum(&chars("10\n+5\n-3\n 4\n6")), 21);
    assert_eq!(day01::star_one("5\n\n1\n1"), 5);
    assert_eq!(day01::star_two("5\n\n1\n1"), 7);
    assert_eq!(day01::star_two("1\n\n2\n\n3\n\n4"), 9);
    assert_eq!(day01::star_two("4\n\n4\n\n4\n\n4"), 12);
}

#[test]
fn hands_score_and_beat_one_another_in_a_circle() {
    let hands = [Action::Rock, Action::Paper, Action::Scissors];
    assert_eq!(hands.map(|h| h.score()), [1, 2, 3]);
    assert_eq!([Outcome::Win, Outcome::Draw, Outcome::Lose].map(|o| o.score()), [6, 3, 0]);
    for (i, &hand) in hands.iter().enumerate() {
        assert_eq!(hand.outcome(hand), Outcome::Draw);
        assert_eq!(hands[(i + 1) % 3].outcome(hand), Outcome::Win);
        assert_eq!(hand.outcome(hands[(i + 1) % 3]), Outcome::Lose);
        for outcome in [Outcome::Win, Outcome::Draw, Outcome::Lose] {
            assert_eq!(hand.outcome(hand.desired_outcome(outcome)), outcome);
        }
    }
}

#[test]
fn suggestions_need_two_hands() {
    assert!(day02::parse("A Y\nB").is_none());
    assert!(day02::parse("A Q").is_none());
    assert!(day02::parse("AY").is_none());
    let read = day02::parse(" C  X  and more \n").expect("two hands");
    assert_eq!((read[0].opponent, read[0].you), (Action::Scissors, Action::Rock));
    assert_eq!(day02::star_one("C X"), 7);
    // the opponent is to win: against scissors you show paper
    assert_eq!(day02::star_two("C X"), 2);
    assert_eq!(day02::star_two("A Y"), 4);
    assert_eq!(day02::star_two("B Z"), 9);
    assert_eq!(day02::star_one(""), 0);
}

#[test]
fn priorities_run_from_1_to_52() {
    assert_eq!(day03::priority(&'a'), 1);
    assert_eq!(day03::priority(&'z'), 26);
    assert_eq!(day03::priority(&'A'), 27);
    assert_eq!(day03::priority(&'Z'), 52);
    let kinds = day03::to_chars(&chars("abA-"));
    assert_eq!(kinds.len(), 52);
    assert_eq!(kinds.iter().filter(|&&k| k).count(), 3);
    assert!(kinds[0] && kinds[1] && kinds[26]);
    assert_eq!(day03::star_one("abcd"), 0);
    assert_eq!(day03::star_one("abcb"), 2);
    assert_eq!(day03::star_one("abAcbA"), 2 + 27);
    // a rucksack is halved at the middle of its bytes
    assert_eq!(["a", "\u{e9}", "\u{20ac}", "\u{1f600}"].map(|c| day03::width(c.chars().next().unwrap())), [1, 2, 3, 4]);
    assert_eq!(day03::find_middle(&chars("\u{e9}bab")), 1);
    assert_eq!(day03::find_middle(&chars("ab\u{e9}b")), 2);
    assert_eq!(day03::find_middle(&chars("")), 0);
    assert_eq!(day03::find_middle(&chars("abc")), 1);
    assert_eq!(day03::star_one("\u{e9}bab"), 0);
    assert_eq!(day03::star_one("ab\u{e9}b"), 2);
    // three sacks share `b`; the two that are left share `Z`
    assert_eq!(day03::star_two("ab\nbc\nbZ\nZa\nbZ"), 2 + 52);
}

#[test]
fn assignments_contain_and_overlap() {
    let a = |first, last| Assignment { first, last };
    assert!(a(2, 8).fully_contains(&a(3, 7)));
    assert!(!a(3, 7).fully_contains(&a(2, 8)));
    assert!(day04::either_fully_contains(&a(3, 7), &a(2, 8)));
    assert!(a(5, 7).overlaps(&a(7, 9)));
    assert!(!a(2, 4).overlaps(&a(5, 8)));
    // an assignment that ends before it starts holds no section
    assert!(!a(5, 3).overlaps(&a(1, 9)));
    assert!(a(1, 9).fully_contains(&a(5, 3)));
    assert_eq!(day04::parse_range(&chars(" 2 - 14 ")), Some(a(2, 14)));
    assert_eq!(day04::parse_range(&chars("2-4-6")), Some(a(2, 4)));
    assert_eq!(day04::parse_range(&chars("24")), None);
    assert_eq!(day04::parse_range(&chars("2-x")), None);
    assert_eq!(day04::parse_pair(&chars("1-2,3-4,5-6")), Some((a(1, 2), a(3, 4))));
    assert_eq!(day04::parse_pair(&chars("1-2")), None);
    assert!(day04::parse("1-2,3-4\n1-2;3-4").is_none());
}

#[test]
fn commands_move_crates_one_by_one_or_all_at_once() {
    let read = day05::parse_command(&chars("move 12  from 3 to 1 ")).expect("a command");
    assert_eq!((read.count, read.source, read.destination), (12, 3, 1));
    assert!(day05::parse_command(&chars("move 1 from 2")).is_none());
    assert!(day05::parse_command(&chars("mov 1 from 2 to 3")).is_none());
    assert!(day05::parse_command(&chars("move x from 2 to 3")).is_none());
    let stacks = || vec![vec![], vec!['a', 'b', 'c'], vec!['d'], vec![]];
    let command = Command { destination: 2, source: 1, count: 2 };
    let mut one = State { stacks: stacks(), shown: vec![false, true, true, false], kind: Kind::CrateMover9000 };
    one.apply(command);
    assert_eq!(one.stacks, vec![vec![], vec!['a'], vec!['d', 'c', 'b'], vec![]]);
    assert_eq!(one.top_of_stacks(), "ab");
    let mut all = State { stacks: stacks(), shown: vec![false, true, true, false], kind: Kind::CrateMover9001 };
    all.apply(command);
    assert_eq!(all.stacks, vec![vec![], vec!['a'], vec!['d', 'b', 'c'], vec![]]);
    assert_eq!(all.top_of_stacks(), "ac");
    let mut same = State { stacks: stacks(), shown: vec![false, true, true, false], kind: Kind::CrateMover9000 };
    same.apply(Command { destination: 1, source: 1, count: 3 });
    assert_eq!(same.stacks[1], vec!['c', 'b', 'a']);
    let drawing = chars("[b]\n[a] [c]\n 1   2 ");
    let state = day05::parse_state(&drawing);
    assert_eq!(state.stacks[1], vec!['a', 'b']);
    assert_eq!(state.stacks[2], vec!['c']);
    assert_eq!(state.stacks.len(), 10);
    assert_eq!(state.shown, vec![false, true, true, false, false, false, false, false, false, false]);
}

#[test]
fn markers_are_runs_of_bytes_that_differ() {
    assert_eq!(day06::find_marker(b"aabcdd", 3), Some(1));
    assert_eq!(day06::find_marker(b"aabb", 3), None);
    assert_eq!(day06::find_marker(b"ab", 3), None);
    assert_eq!(day06::find_marker(b"", 0), Some(0));
    assert_eq!(day06::signal(" \t ab c\r\n"), b"ab c");
    assert_eq!(day06::signal("\n"), b"");
    assert_eq!(day06::star_one("\n  aaabcde \n"), 6);
    assert!(day06::all_different(&[1u64, 2, 3]));
    assert!(!day06::all_different(&[(1u8, 2u8), (1, 2)]));
    assert!(day06::all_different::<u8>(&[]));
}

#[test]
fn white_space_of_any_kind_is_cut_off_the_signal() {
    for text in ["\u{a0}aabcd", "\u{2003}\u{85}aabcd\u{3000}\u{1680}", "\u{2028}aabcd\u{205f}\n"] {
        assert_eq!(day06::signal(text), b"aabcd");
        assert_eq!(day06::signal(text), text.trim().as_bytes());
        assert_eq!(day06::star_one(text), 5);
    }
    // inside the signal white space stays, and a character of several bytes counts byte by byte
    assert_eq!(day06::signal(" a\u{a0}b "), "a\u{a0}b".as_bytes());
    assert_eq!(day06::star_one("aa\u{e9}bc"), 5);
    assert_eq!(day06::star_one("\u{e9}\u{e9}\u{e8}ab"), 7);
    // the zero-width space is no white space
    assert_eq!(day06::signal("\u{200b}ab"), "\u{200b}ab".as_bytes());
}

#[test]
fn knots_follow_the_knot_ahead() {
    let at = |x, y| Vector2 { x, y };
    assert_eq!([-7, -1, 0, 1, 9].map(day09::clamp), [-1, -1, 0, 1, 1]);
    assert!(at(0, 0).is_adjacent(&at(1, -1)));
    assert!(at(3, 3).is_adjacent(&at(3, 3)));
    assert!(!at(0, 0).is_adjacent(&at(2, 0)));
    assert!(!at(0, 0).is_adjacent(&at(1, 2)));
    let mut state = day09::State::new(2);
    assert_eq!(state.tail, vec![at(0, 0), at(0, 0)]);
    for _ in 0..3 {
        state.step_once(Direction::Right);
    }
    assert_eq!((state.head, state.tail.clone()), (at(3, 0), vec![at(2, 0), at(1, 0)]));
    state.step_once(Direction::Up);
    state.step_once(Direction::Up);
    assert_eq!((state.head, state.tail.clone()), (at(3, 2), vec![at(3, 1), at(2, 1)]));
    state.step_once(Direction::Left);
    state.step_once(Direction::Down);
    assert_eq!((state.head, state.tail.clone()), (at(2, 1), vec![at(3, 1), at(2, 1)]));
    let mut seen = Vec::new();
    let motion = day09::parse_motion(&chars(" L 3 ")).expect("a motion");
    state.apply(&motion, &mut seen);
    assert_eq!(seen, vec![at(2, 1), at(1, 1)]);
    assert!(day09::parse_motion(&chars("L")).is_none());
    assert!(day09::parse_motion(&chars("L  3")).is_none());
    assert!(day09::parse_motion(&chars("X 3")).is_none());
    assert!(day09::parse("R 1\nU").is_none());
    assert_eq!(day09::star_one(""), 0);
    assert_eq!(day09::star_one("R 0"), 1);
}

#[test]
fn the_machine_adds_after_two_cycles() {
    let mut machine = Machine::new(vec![Op::NOOP, Op::Add(Register::X, 3), Op::Add(Register::X, -5)]);
    let mut seen = Vec::new();
    for _ in 0..5 {
        seen.push(machine.register(Register::X));
        machine.tick();
    }
    assert_eq!(seen, vec![1, 1, 1, 4, 4]);
    assert_eq!(machine.register(Register::X), -1);
    assert_eq!((machine.ip, machine.cycle_count, machine.op_cycle), (3, 5, 0));
    assert_eq!(Op::NOOP.cycles(), 1);
    assert_eq!(Op::Add(Register::X, 0).cycles(), 2);
    assert!(matches!(day10::parse_op(&chars("addx -7 rest")), Some(Op::Add(Register::X, -7))));
    assert!(matches!(day10::parse_op(&chars(" noop")), Some(Op::NOOP)));
    assert!(day10::parse_op(&chars("addx")).is_none());
    assert!(day10::parse_op(&chars("addx x")).is_none());
    assert!(day10::parse_op(&chars("nop")).is_none());
    assert!(day10::parse("noop\njump 3").is_none());
    let noops = "noop\n".repeat(240);
    assert_eq!(day10::star_one(&noops), 20 + 60 + 100 + 140 + 180 + 220);
    let row = "###.....................................\n";
    assert_eq!(day10::star_two(&noops), row.repeat(6));
}

#[test]
fn monkeys_inspect_test_and_throw() {
    assert_eq!(Operation::MulOld(19).apply(79, 96577), 1501);
    assert_eq!(Operation::AddOld(6).apply(54, 7), 4);
    assert_eq!(Operation::MulOldSelf.apply(79, 96577), 6241);
    assert_eq!(Operation::AddOldSelf.apply(40, 96577), 80);
    let test = Test::new(23, 2, 3);
    assert_eq!(test.outcome(46), 2);
    assert_eq!(test.outcome(47), 3);
    let monkey = Monkey::new(0, vec![79, 98], Operation::MulOld(19), test);
    assert_eq!(monkey.inspect(79, false, 96577), 500);
    assert_eq!(monkey.inspect(79, true, 96577), 1501);
    let mut monkeys = vec![
        Monkey::new(0, vec![79, 98], Operation::MulOld(19), Test::new(23, 2, 3)),
        Monkey::new(1, vec![54, 65, 75, 74], Operation::AddOld(6), Test::new(19, 2, 0)),
        Monkey::new(2, vec![79, 60, 97], Operation::MulOldSelf, Test::new(13, 1, 3)),
        Monkey::new(3, vec![74], Operation::AddOld(3), Test::new(17, 0, 1)),
    ];
    assert_eq!(day11::divisor(&monkeys), 96577);
    let mut counts = vec![0; 4];
    day11::do_round(&mut monkeys, false, &mut counts);
    let held: Vec<Vec<u64>> = monkeys.iter().map(|m| m.items.clone()).collect();
    assert_eq!(held, vec![vec![20, 23, 27, 26], vec![2080, 25, 167, 207, 401, 1046], vec![], vec![]]);
    assert_eq!(counts, vec![2, 4, 3, 5]);
    // with one busy monkey, or none, the counts that are missing do not count
    let lone = vec![Monkey::new(0, vec![1], Operation::AddOld(1), Test::new(1, 0, 0))];
    assert_eq!(day11::solve(lone, 3, true), 1);
    assert_eq!(day11::solve(vec![], 5, false), 1);
    let idle = vec![
        Monkey::new(0, vec![4, 5], Operation::AddOld(0), Test::new(2, 1, 1)),
        Monkey::new(1, vec![], Operation::AddOld(0), Test::new(2, 1, 1)),
    ];
    assert_eq!(day11::solve(idle, 1, true), 2 * 2);
}
