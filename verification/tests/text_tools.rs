use advent::text::{
    entries, find_from, is_whitespace, lines, parse_digits, parse_i64, parse_u64, parse_usize, split_at_space,
    split_by_pair, split_once, split_pair, strip_prefix, to_chars, trim, trim_end, trim_start, words,
};
use advent::{parse_custom_separated, parse_lines, parse_whitespace_separated};

fn chars(s: &str) -> Vec<char> {
    s.chars().collect()
}

fn text(s: &[char]) -> String {
    s.iter().collect()
}

fn texts(parts: Vec<&[char]>) -> Vec<String> {
    parts.into_iter().map(text).collect()
}

#[test]
fn characters_are_collected_in_order() {
    assert_eq!(to_chars("a\u{e9}z"), vec!['a', '\u{e9}', 'z']);
    assert_eq!(to_chars(""), Vec::<char>::new());
}

#[test]
fn white_space_is_what_unicode_lists() {
    for c in [' ', '\t', '\n', '\r', '\u{b}', '\u{c}', '\u{85}', '\u{a0}', '\u{2003}', '\u{3000}'] {
        assert!(is_whitespace(c));
        assert!(c.is_whitespace());
    }
    for c in ['a', '0', '_', '\u{200b}', '\u{8}', '\u{e}'] {
        assert!(!is_whitespace(c));
        assert!(!c.is_whitespace());
    }
}

#[test]
fn trimming_cuts_white_space_off_the_ends_only() {
    let s = chars(" \t a b \r\n");
    assert_eq!(text(trim_start(&s)), "a b \r\n");
    assert_eq!(text(trim_end(&s)), " \t a b");
    assert_eq!(text(trim(&s)), "a b");
    assert_eq!(text(trim(&chars(" \n "))), "");
    assert_eq!(text(trim(&chars(""))), "");
}

#[test]
fn lines_end_at_line_feeds_and_lose_the_carriage_return_before_one() {
    assert_eq!(texts(lines(&chars("a\nb\r\n\nc"))), vec!["a", "b", "", "c"]);
    assert_eq!(texts(lines(&chars("a\n"))), vec!["a"]);
    assert_eq!(texts(lines(&chars("a\n\n"))), vec!["a", ""]);
    assert_eq!(texts(lines(&chars("a\r"))), vec!["a\r"]);
    assert_eq!(texts(lines(&chars("\n"))), vec![""]);
    assert!(lines(&chars("")).is_empty());
    for s in ["a\nb\r\n\nc", "a\n", "a\r", "\r\n\r\n", "x\ry\n\rz"] {
        let expected: Vec<&str> = s.lines().collect();
        assert_eq!(texts(lines(&chars(s))), expected);
    }
}

#[test]
fn entries_are_the_lines_that_hold_something() {
    assert_eq!(texts(entries(&chars("\n  a b \n\n\tc\n   \n"))), vec!["a b", "c"]);
    assert!(entries(&chars(" \n \n")).is_empty());
}

#[test]
fn words_are_the_runs_between_white_space() {
    assert_eq!(texts(words(&chars("  move 1\tfrom\n2 "))), vec!["move", "1", "from", "2"]);
    assert!(words(&chars(" \t ")).is_empty());
    assert_eq!(texts(words(&chars("one"))), vec!["one"]);
}

#[test]
fn the_first_of_a_character_is_found_from_a_place_on() {
    let s = chars("a,b,c");
    assert_eq!(find_from(&s, 0, ','), 1);
    assert_eq!(find_from(&s, 2, ','), 3);
    assert_eq!(find_from(&s, 4, ','), 5);
    assert_eq!(find_from(&s, 5, ','), 5);
}

#[test]
fn splitting_at_characters_and_pairs() {
    let s = chars("2-4,6-8,x");
    let (left, right) = split_pair(&s, ',').expect("a comma");
    assert_eq!((text(left), text(right)), ("2-4".to_string(), "6-8".to_string()));
    assert!(split_pair(&chars("2-4"), ',').is_none());
    let (x, y) = split_once(&s, ',').expect("a comma");
    assert_eq!((text(x), text(y)), ("2-4".to_string(), "6-8,x".to_string()));
    assert!(split_once(&chars("24"), ',').is_none());
    let motion = chars("R  4");
    let (a, b) = split_at_space(&motion).expect("a space");
    assert_eq!((text(a), text(b)), ("R".to_string(), " 4".to_string()));
    assert!(split_at_space(&chars("R4")).is_none());
    assert_eq!(texts(split_by_pair(&chars("1,2 -> 3,4->5,6"), '-', '>')), vec!["1,2 ", " 3,4", "5,6"]);
    assert_eq!(texts(split_by_pair(&chars("a\n\n\nb\n\n"), '\n', '\n')), vec!["a", "\nb", ""]);
    assert_eq!(texts(split_by_pair(&chars(""), '-', '>')), vec![""]);
    let order = chars("move 1");
    assert_eq!(text(strip_prefix(&order, "move").expect("the word")), " 1");
    assert!(strip_prefix(&chars("mov"), "move").is_none());
    assert!(strip_prefix(&chars("more 1"), "move").is_none());
}

#[test]
fn numbers_are_read_as_the_standard_library_reads_them() {
    for s in ["0", "7", "+5", "007", "18446744073709551615", "18446744073709551616", "", "+", "-1", "1 ", "1a", "++1"] {
        assert_eq!(parse_u64(&chars(s)), s.parse::<u64>().ok(), "for {:?}", s);
        assert_eq!(parse_usize(&chars(s)), s.parse::<usize>().ok(), "for {:?}", s);
    }
    for s in [
        "0",
        "-0",
        "+12",
        "-12",
        "9223372036854775807",
        "9223372036854775808",
        "-9223372036854775808",
        "-9223372036854775809",
        "",
        "-",
        "+",
        "-+1",
        "+-1",
        " 1",
        "1-",
    ] {
        assert_eq!(parse_i64(&chars(s)), s.parse::<i64>().ok(), "for {:?}", s);
    }
    assert_eq!(parse_digits(&chars("42")), Some(42));
    assert_eq!(parse_digits(&chars("+42")), None);
}

fn number(unit: &[char]) -> Option<u64> {
    parse_u64(unit)
}

#[test]
fn values_are_read_from_lines_words_and_parts() {
    assert_eq!(parse_lines("\n 1 \n\n22\n", number), vec![1, 22]);
    assert_eq!(parse_whitespace_separated(" 1 22\t3\n4 ", number), vec![1, 22, 3, 4]);
    assert_eq!(parse_custom_separated("1 ->22->  -> 3", "->", number), vec![1, 22, 3]);
    assert_eq!(parse_custom_separated("1,2,,3,", ",", number), vec![1, 2, 3]);
    assert_eq!(parse_custom_separated("", ",", number), Vec::<u64>::new());
    // the empty separator stands between all characters
    assert_eq!(parse_custom_separated("1 2\n34", "", number), vec![1, 2, 3, 4]);
    assert_eq!(parse_custom_separated(" ", "", number), Vec::<u64>::new());
    let apart: Vec<&str> = "1 2\n34".split("").map(str::trim).filter(|l| !l.is_empty()).collect();
    assert_eq!(apart, vec!["1", "2", "3", "4"]);
    assert_eq!(parse_lines("", number), Vec::<u64>::new());
}
