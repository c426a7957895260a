use advent::day07::{self, Arena, Entry, FileSystem, Idx, Path};
use advent::day13::{self, find_balanced, in_order, slice_balanced, Item, PacketError, Pair};
use advent::day14::{self, CaveMap, Location, Mode};
use advent::math::Vector2;
use std::cmp::Ordering;

fn chars(s: &str) -> Vec<char> {
    s.chars().collect()
}

fn packet(s: &str) -> Item {
    Item::List(Item::parse_items(s).expect("a packet"))
}

#[test]
fn packets_compare_by_value_then_by_length() {
    let less = [
        ("[1]", "[2]"),
        ("[]", "[0]"),
        ("[1,1]", "[1,1,0]"),
        ("[[1]]", "[2]"),
        ("[1]", "[[2]]"),
        ("[[]]", "[0]"),
        ("[[1],1]", "[1,2]"),
        ("[0]", "[[0,0]]"),
        ("[[1,2],0]", "[2,0]"),
    ];
    for (a, b) in less {
        assert!(in_order(&packet(a), &packet(b)), "{} before {}", a, b);
        assert!(!in_order(&packet(b), &packet(a)), "{} after {}", b, a);
    }
    for same in ["[]", "[1,[2,[3]]]", "[[[]]]"] {
        assert!(in_order(&packet(same), &packet(same)));
    }
    // an integer and the list of that integer stand as equals
    assert!(in_order(&packet("[1]"), &packet("[[1]]")));
    assert!(in_order(&packet("[[1]]"), &packet("[1]")));
    assert!(in_order(&Item::Integer(3), &Item::Integer(3)));
    assert!(!in_order(&Item::Integer(4), &Item::Integer(3)));
}

#[test]
fn texts_that_are_no_packets_are_refused() {
    let refused = |s: &str| Item::parse_items(s).map(|_| ()).unwrap_err();
    assert_eq!(refused(""), PacketError::NotAList);
    assert_eq!(refused("["), PacketError::NotAList);
    assert_eq!(refused("1,2"), PacketError::NotAList);
    assert_eq!(refused("[1,2"), PacketError::NotAList);
    assert_eq!(refused("[[1,2]"), PacketError::Unbalanced);
    assert_eq!(refused("[a]"), PacketError::Unexpected);
    assert_eq!(refused("[1,,2]"), PacketError::Unexpected);
    assert_eq!(refused("[99999999999999999999]"), PacketError::BadNumber);
    assert_eq!(refused("[[1],]]"), PacketError::Stray);
    assert_eq!(refused("[1 ,2]"), PacketError::NotAList);
    // behind a list one byte is passed over, and a character of more bytes is none
    assert_eq!(refused("[[1]\u{e9}]"), PacketError::Unexpected);
    assert_eq!(Item::parse_items("[[1];2]").expect("a list").len(), 2);
    assert!(Item::parse_items("[]").expect("the empty list").is_empty());
    assert_eq!(Item::parse_items("[ 10, [ ], 3]").expect("a list").len(), 3);
    assert!(day13::parse_packets("[1]\n[2\n").is_none());
}

#[test]
fn a_pair_is_read_from_two_lines() {
    assert!(Pair::parse("[1,2]\n[1,3]").expect("a pair").in_order());
    assert!(!Pair::parse("[[2]]\n[1,3]").expect("a pair").in_order());
    assert_eq!(Pair::parse("[1,2]").map(|_| ()).unwrap_err(), PacketError::NotAList);
    assert_eq!(Pair::parse("[1,2]\n[1,3]\n").map(|_| ()).unwrap_err(), PacketError::NotAList);
    assert_eq!(Pair::parse("[1,2]\n[[]").map(|_| ()).unwrap_err(), PacketError::Unbalanced);
}

#[test]
fn brackets_are_matched_and_the_text_is_cut_behind_the_match() {
    assert_eq!(find_balanced(&chars("[[]][]"), ('[', ']')), Some(3));
    assert_eq!(find_balanced(&chars("[[]"), ('[', ']')), None);
    assert_eq!(find_balanced(&chars("x[]"), ('[', ']')), None);
    assert_eq!(find_balanced(&chars(""), ('[', ']')), None);
    assert_eq!(slice_balanced("[1],[2]", ('[', ']')), Some(("[1]", "[2]")));
    assert_eq!(slice_balanced("(a(b))c", ('(', ')')), Some(("(a(b))", "")));
    assert_eq!(slice_balanced("(a(b))cd", ('(', ')')), Some(("(a(b))", "d")));
    assert_eq!(slice_balanced("[\u{e9}]yx", ('[', ']')), Some(("[\u{e9}]", "x")));
    assert_eq!(slice_balanced("1]", ('[', ']')), None);
}

#[test]
fn packets_are_put_in_order_and_the_dividers_found() {
    let sorted = day13::sort_packets(vec![packet("[3]"), packet("[[1]]"), packet("[]"), packet("[2,0]"), packet("[2]")]);
    for pair in sorted.windows(2) {
        assert!(in_order(&pair[0], &pair[1]));
    }
    assert!(sorted[0].eq_text("[]"));
    assert!(sorted[4].eq_text("[3]"));
    assert_eq!(day13::star_one("[1]\n[2]\n[2]\n[1]\n[3]\n[3]"), 1 + 3);
    assert_eq!(day13::star_one(""), 0);
    assert_eq!(day13::star_two(""), 1 * 2);
    assert_eq!(day13::star_two("[1]\n[7]\n[3]\n[[4]]"), 2 * 5);
}

#[test]
fn packets_come_out_as_the_standard_sort_orders_them() {
    // no two of these stand as equals, and none stands as an equal to a divider packet
    let texts = [
        "[7,1]", "[]", "[[8]]", "[2,0]", "[[],[]]", "[1,[2],0]", "[10]", "[[]]", "[3]", "[[4],4]", "[0]", "[6,1]", "[1,2]", "[5]",
        "[[[]]]", "[9]", "[[6],0]", "[4]", "[2,1]", "[1]", "[1,1]", "[0,0]", "[[0],[1]]", "[[3],[]]", "[12]", "[[11]]", "[8,8]",
        "[[2],[6]]",
    ];
    let order = |a: &Item, b: &Item| {
        if in_order(a, b) {
            Ordering::Less
        } else if in_order(b, a) {
            Ordering::Greater
        } else {
            Ordering::Equal
        }
    };
    for take in [0, 2, 4, 6, 12, 20, 22, texts.len()] {
        let list = || {
            let mut list: Vec<Item> = texts[..take].iter().map(|t| packet(t)).collect();
            list.push(packet("[[2]]"));
            list.push(packet("[[6]]"));
            list
        };
        let mut expected = list();
        expected.sort_by(order);
        let shown = |items: &Vec<Item>| items.iter().map(packet_text).collect::<Vec<String>>();
        assert_eq!(shown(&day13::sort_packets(list())), shown(&expected));
        let places: Vec<usize> = expected
            .iter()
            .enumerate()
            .filter(|(_, i)| ["[[2]]", "[[6]]"].contains(&packet_text(i).as_str()))
            .map(|(at, _)| at + 1)
            .collect();
        assert_eq!(day13::star_two(&texts[..take].join("\n")), places[0] * places[1]);
    }
    // among packets that stand as equals, one put in later comes first
    let equals = day13::sort_packets(vec![packet("[3]"), packet("[[3]]"), packet("[1]"), packet("[[[3]]]")]);
    assert_eq!(equals.iter().map(packet_text).collect::<Vec<String>>(), vec!["[1]", "[[[3]]]", "[[3]]", "[3]"]);
}

fn packet_text(item: &Item) -> String {
    match item {
        Item::Integer(v) => format!("{v}"),
        Item::List(items) => format!("[{}]", items.iter().map(packet_text).collect::<Vec<String>>().join(",")),
    }
}

trait EqText {
    fn eq_text(&self, text: &str) -> bool;
}

impl EqText for Item {
    fn eq_text(&self, text: &str) -> bool {
        let other = packet(text);
        in_order(self, &other) && in_order(&other, self)
    }
}

const SESSION: &str = "$ cd /\n$ ls\ndir a\n10 b.txt\ndir c\n$ cd a\n$ ls\n5 d\ndir e\n$ cd e\n$ ls\n7 f\n$ cd ..\n$ cd ..\n$ cd c\n$ ls\n";

#[test]
fn the_file_system_is_read_from_a_session() {
    let fs = FileSystem::parse(SESSION).expect("a file system");
    assert_eq!(fs.root_idx, Idx(0));
    assert_eq!(fs.arena.storage.len(), 7);
    assert_eq!(fs.totals(), vec![22, 12, 10, 0, 5, 7, 7]);
    assert_eq!(fs.calculate_sizes(), vec![Some(22), Some(12), None, Some(0), None, Some(7), None]);
    assert_eq!(fs.reached(), vec![true; 7]);
    assert!(fs.arena.get(Idx(1)).is_dir());
    assert!(!fs.arena.get(Idx(2)).is_dir());
    assert_eq!(fs.arena.get(Idx(5)).parent(), Idx(1));
    assert_eq!(fs.find_child_idx(Idx(0), &chars("c")), Some(Idx(3)));
    assert_eq!(fs.find_child_idx(Idx(0), &chars("b.txt")), None);
    assert_eq!(fs.find_child_idx(Idx(1), &chars("c")), None);
    assert_eq!(day07::sum_small(&fs), 22 + 12 + 0 + 7);
}

#[test]
fn a_walk_meets_every_directory_before_what_it_holds() {
    let fs = FileSystem::parse(SESSION).expect("a file system");
    let seen: Vec<(usize, Vec<usize>, usize)> = fs
        .walk()
        .into_iter()
        .map(|(idx, path, depth)| (idx.0, path.segments.iter().map(|s| s.0).collect(), depth))
        .collect();
    assert_eq!(
        seen,
        vec![
            (0, vec![0], 0),
            (1, vec![0, 1], 1),
            (4, vec![0, 1, 4], 2),
            (5, vec![0, 1, 5], 2),
            (6, vec![0, 1, 5, 6], 3),
            (2, vec![0, 2], 1),
            (3, vec![0, 3], 1),
        ]
    );
    let replaced = FileSystem::parse("$ ls\n4 a\ndir b\n$ ls\n6 c\n").expect("a file system");
    assert_eq!(replaced.walk().len(), 2);
    assert_eq!(fs.root_path().segments, vec![Idx(0)]);
    let path = Path::of(Idx(0)).extend(Idx(1)).extend(Idx(5));
    assert_eq!(path.segments, vec![Idx(0), Idx(1), Idx(5)]);
    assert!(path.is_sub_path(&Path::of(Idx(0)).extend(Idx(1))));
    assert!(path.is_sub_path(&path.copy()));
    assert!(!path.is_sub_path(&Path::of(Idx(1))));
    assert!(!Path::of(Idx(0)).is_sub_path(&path));
}

#[test]
fn sessions_that_cannot_be_followed_are_refused() {
    assert!(FileSystem::parse("$ cd ..").is_none());
    assert!(FileSystem::parse("$ cd a").is_none());
    assert!(FileSystem::parse("$ ls\ndir a\n$ cd a\n$ cd b").is_none());
    assert!(FileSystem::parse("$ ls\nnosize").is_none());
    assert!(FileSystem::parse("$ ls\nx y").is_none());
    // a file is no directory to change to
    assert!(FileSystem::parse("$ ls\n1 a\n$ cd a").is_none());
    // what is not a command and follows no listing is passed over
    assert!(FileSystem::parse("stray line\n$ pwd\nanother\n$ cd /").is_some());
    assert!(FileSystem::parse("").is_some());
}

#[test]
fn a_second_listing_replaces_the_first() {
    let fs = FileSystem::parse("$ ls\n4 a\ndir b\n$ ls\n6 c\n").expect("a file system");
    // what the first listing showed cannot be reached, and has no size
    assert_eq!(fs.totals(), vec![6, 0, 0, 6]);
    assert_eq!(fs.calculate_sizes(), vec![Some(6), None, None, None]);
    assert_eq!(fs.reached(), vec![true, false, false, true]);
    // the directory that was listed first is no longer counted
    assert_eq!(day07::sum_small(&fs), 6);
}

#[test]
fn entries_are_read_from_the_lines_of_a_listing() {
    assert!(matches!(Entry::parse(&chars("dir  abc "), Idx(3)), Some(Entry::Dir { parent: Idx(3), .. })));
    match Entry::parse(&chars("12  a b "), Idx(0)) {
        Some(Entry::File { size, name }) => {
            assert_eq!(size, 12);
            assert_eq!(name, chars("a b"));
        }
        _ => panic!("a file"),
    }
    assert!(Entry::parse(&chars("12"), Idx(0)).is_none());
    assert!(Entry::parse(&chars("x a"), Idx(0)).is_none());
    let mut arena = Arena::new();
    assert_eq!(arena.insert('a'), Idx(0));
    assert_eq!(arena.insert('b'), Idx(1));
    assert_eq!(*arena.get(Idx(1)), 'b');
    let mut root = Entry::Root { children: vec![] };
    root.set_children(vec![Idx(4), Idx(2)]);
    assert!(matches!(root, Entry::Root { children } if children == vec![Idx(4), Idx(2)]));
}

#[test]
fn the_smallest_directory_that_frees_enough_is_chosen() {
    let text = "$ ls\ndir a\ndir b\n30000000 x\n$ cd a\n$ ls\n9000000 y\n$ cd ..\n$ cd b\n$ ls\n11000000 z\n";
    let fs = FileSystem::parse(text).expect("a file system");
    // 50 of 70 millions are used, so that 10 millions have to go
    assert_eq!(day07::smallest_to_delete(&fs), Some(11000000));
    assert_eq!(day07::star_two(text), 11000000);
    let full = FileSystem::parse("$ ls\n45000000 x\ndir a\n$ cd a\n$ ls\n1 y").expect("a file system");
    assert_eq!(day07::smallest_to_delete(&full), None);
}

#[test]
fn sand_falls_down_then_left_then_right() {
    let at = |x, y| Vector2 { x, y };
    let rocks = day14::parse("498,2 -> 502,2\n");
    assert_eq!(rocks, vec![at(498, 2), at(499, 2), at(500, 2), at(501, 2), at(502, 2)]);
    let mut cave = CaveMap::new(rocks, at(500, 0), Mode::Abyss);
    assert_eq!(cave.max_y, 2);
    assert_eq!(cave.fall_location(at(500, 0)), Some(at(500, 1)));
    assert_eq!(cave.fall_location(at(500, 1)), None);
    assert!(cave.tick());
    assert_eq!(cave.fall_location(at(500, 0)), Some(at(499, 1)));
    assert!(cave.tick());
    assert_eq!(cave.fall_location(at(500, 0)), Some(at(501, 1)));
    assert!(cave.tick());
    assert_eq!(cave.fall_location(at(500, 0)), None);
    assert_eq!(cave.fall_location(at(499, 1)), None);
    assert!(cave.tick());
    assert_eq!(cave.sand_at_rest(), 4);
    // the source is filled: sand on sand adds nothing, and without a floor more may follow
    assert!(cave.tick());
    assert_eq!(cave.sand_at_rest(), 4);
    assert!(cave.source_sand);
    // from a ledge of three the second unit slides off
    assert_eq!(day14::star_one("499,2 -> 501,2\n"), 1);
    assert_eq!(day14::star_one("500,3 -> 500,4"), 0);
    // without rock the floor lies two below the source
    assert_eq!(day14::star_one(""), 0);
    assert_eq!(day14::star_two(""), 4);
    assert_eq!(day14::star_two("0,1 -> 0,2"), 16);
}

#[test]
fn sand_falls_the_same_way_far_from_the_source() {
    let at = |x, y| Vector2 { x, y };
    let rocks = vec![at(10, 3), at(9, 3), at(-7, 1), at(1000, -4), at(500, 9)];
    let cave = CaveMap::new(rocks.clone(), at(500, 0), Mode::Floor);
    // the floor lies at 11, and the cells reach from column 489 to column 511
    assert_eq!(cave.fall_location(at(10, 2)), Some(at(11, 3)));
    assert_eq!(cave.fall_location(at(9, 2)), Some(at(8, 3)));
    assert_eq!(cave.fall_location(at(-7, 0)), Some(at(-8, 1)));
    assert_eq!(cave.fall_location(at(1000, -5)), Some(at(999, -4)));
    assert_eq!(cave.fall_location(at(1000, -6)), Some(at(1000, -5)));
    assert_eq!(cave.fall_location(at(-3000, 10)), None);
    assert_eq!(cave.fall_location(at(-3000, 11)), Some(at(-3000, 12)));
    assert_eq!(cave.fall_location(at(500, 8)), Some(at(499, 9)));
    assert!(cave.is_blocked(1_000_000, 11) && cave.is_blocked(9, 3) && !cave.is_blocked(8, 3));
    let open = CaveMap::new(rocks, at(500, 0), Mode::Abyss);
    assert_eq!(open.fall_location(at(-3000, 10)), Some(at(-3000, 11)));
    assert!(!open.is_blocked(1_000_000, 11) && open.is_blocked(-7, 1));
}

#[test]
fn sand_may_pour_in_anywhere() {
    let at = |x, y| Vector2 { x, y };
    // a ledge two below a source that lies elsewhere
    let ledge = || vec![at(-3, 7), at(-2, 7), at(-1, 7), at(0, 7), at(1, 7)];
    let mut cave = CaveMap::new(ledge(), at(-1, 5), Mode::Abyss);
    cave.fill();
    assert_eq!(cave.sand_at_rest(), 4);
    let mut floored = CaveMap::new(ledge(), at(-1, 5), Mode::Floor);
    floored.fill();
    // the ledge holds the heap up to the source
    assert_eq!(floored.sand_at_rest(), 4);
    let narrow = || vec![at(-2, 7), at(-1, 7), at(0, 7)];
    let mut off = CaveMap::new(narrow(), at(-1, 5), Mode::Abyss);
    off.fill();
    assert_eq!(off.sand_at_rest(), 1);
    let mut heap = CaveMap::new(narrow(), at(-1, 5), Mode::Floor);
    heap.fill();
    // the floor lies at 9: rows of 1, 3, 5 and 7 places, less the three rocks and the place below them
    assert_eq!(heap.sand_at_rest(), 1 + 3 + (5 - 3) + (7 - 1));
    // a source on or below the lowest rock lets nothing rest where there is no floor
    let mut low = CaveMap::new(ledge(), at(0, 7), Mode::Abyss);
    assert!(!low.tick());
    assert_eq!(low.sand_at_rest(), 0);
    // just above the floor the first unit rests where it pours in
    let mut on_floor = CaveMap::new(ledge(), at(0, 8), Mode::Floor);
    on_floor.fill();
    assert_eq!(on_floor.sand_at_rest(), 1);
}

#[test]
fn a_rock_where_the_sand_pours_in_counts_as_filled() {
    let at = |x, y| Vector2 { x, y };
    // with a floor the first unit falls past the rock, and no more follows
    let mut floored = CaveMap::new(vec![at(500, 0)], at(500, 0), Mode::Floor);
    assert!(!floored.tick());
    assert_eq!(floored.sand_at_rest(), 1);
    assert!(floored.is_blocked(500, 1));
    assert!(!floored.source_sand);
    // held in place, the sand takes the place of the rock
    let held = vec![at(500, 0), at(499, 1), at(500, 1), at(501, 1), at(500, 5)];
    let mut cave = CaveMap::new(held, at(500, 0), Mode::Abyss);
    assert!(cave.tick());
    assert_eq!(cave.sand_at_rest(), 1);
    assert!(cave.tick());
    assert_eq!(cave.sand_at_rest(), 1);
}

#[test]
fn rocks_lie_on_straight_lines_between_points() {
    let at = |x, y| Vector2 { x, y };
    assert_eq!(day14::make_range(3, -1), (-1, 3));
    assert_eq!(day14::make_range(2, 2), (2, 2));
    assert_eq!(day14::parse_point(&chars("498,-4")), Some(at(498, -4)));
    assert_eq!(day14::parse_point(&chars("498")), None);
    assert_eq!(day14::parse_point(&chars("498, 4")), None);
    assert_eq!(day14::parse_point(&chars("498,4,5")), None);
    let mut rocks = vec![at(0, 0)];
    day14::parse_rocks_in_line(&chars("3,1->1,1 -> 1,2"), &mut rocks);
    assert_eq!(rocks, vec![at(0, 0), at(1, 1), at(2, 1), at(3, 1), at(1, 1), at(1, 2)]);
    let mut none = Vec::new();
    day14::parse_rocks_in_line(&chars("7,7"), &mut none);
    assert!(none.is_empty());
    assert!(Location::Sand.is_sand());
    assert!(!Location::Rock.is_sand());
}
