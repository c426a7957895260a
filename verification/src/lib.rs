use crate::text::{
    entries, entries_of, is_space, is_whitespace, to_chars, trim, trimmed, trimmed_start, words, words_of,
};
use vstd::prelude::*;
use vstd::slice::slice_subrange;

pub mod day01;
pub mod day02;
pub mod day03;
pub mod day04;
pub mod day05;
pub mod day06;
pub mod day07;
pub mod day08;
pub mod day09;
pub mod day10;
pub mod day11;
pub mod day12;
pub mod day13;
pub mod day14;
pub mod iters;
pub mod math;
pub mod tables;
pub mod text;

verus! {

/// `parse` reads every one of the texts.
pub open spec fn reads_all<T, F: Fn(&[char]) -> Option<T>>(parse: F, texts: Seq<Seq<char>>) -> bool {
    forall|unit: &[char], r: Option<T>|
        texts.contains(unit@) && #[trigger] parse.ensures((unit,), r) ==> r is Some
}

/// `value` is what `parse` reads from `text`.
pub open spec fn read_as<T, F: Fn(&[char]) -> Option<T>>(parse: F, text: Seq<char>, value: T) -> bool {
    exists|unit: &[char]| unit@ == text && #[trigger] parse.ensures((unit,), Some(value))
}

/// `values` are what `parse` reads from the texts, one from each.
pub open spec fn read_from<T, F: Fn(&[char]) -> Option<T>>(parse: F, texts: Seq<Seq<char>>, values: Seq<T>) -> bool {
    &&& values.len() == texts.len()
    &&& forall|i: int| 0 <= i < values.len() ==> #[trigger] read_as(parse, texts[i], values[i])
}

/// Reads each of the units with `parse`.
fn parse_units<T, F: Fn(&[char]) -> Option<T>>(units: &Vec<&[char]>, parse: F, Ghost(texts): Ghost<Seq<Seq<char>>>) -> (r:
    Vec<T>)
    requires
        units@.len() == texts.len(),
        forall|i: int| 0 <= i < units@.len() ==> (#[trigger] units@[i])@ == texts[i],
        forall|unit: &[char]| parse.requires((unit,)),
        reads_all(parse, texts),
    ensures
        read_from(parse, texts, r@),
{
    let mut r: Vec<T> = Vec::new();
    let mut i: usize = 0;
    while i < units.len()
        invariant
            i <= units@.len(),
            units@.len() == texts.len(),
            forall|j: int| 0 <= j < units@.len() ==> (#[trigger] units@[j])@ == texts[j],
            forall|unit: &[char]| parse.requires((unit,)),
            reads_all(parse, texts),
            r@.len() == i,
            forall|j: int| 0 <= j < i ==> #[trigger] read_as(parse, texts[j], r@[j]),
        decreases units@.len() - i,
    {
        let unit = units[i];
        let value = parse(unit);
        assert(texts.contains(unit@)) by {
            assert(texts[i as int] == unit@);
        }
        let v = match value {
            Some(v) => v,
            None => vstd::pervasive::unreached(),
        };
        let ghost before = r@;
        r.push(v);
        assert forall|j: int| 0 <= j < i + 1 implies #[trigger] read_as(parse, texts[j], r@[j]) by {
            if j == i {
                assert(unit@ == texts[j] && parse.ensures((unit,), Some(r@[j])));
            } else {
                assert(read_as(parse, texts[j], before[j]));
            }
        }
        i += 1;
    }
    r
}

/// Reads a value from each line of `input` that holds more than white
/// space, the line taken without the white space at its ends.
pub fn parse_lines<T, F: Fn(&[char]) -> Option<T>>(input: &str, parse: F) -> (r: Vec<T>)
    requires
        forall|unit: &[char]| parse.requires((unit,)),
        reads_all(parse, entries_of(input@)),
    ensures
        read_from(parse, entries_of(input@), r@),
{
    let chars = to_chars(input);
    let units = entries(chars.as_slice());
    parse_units(&units, parse, Ghost(entries_of(input@)))
}

/// Reads a value from each word of `input`.
pub fn parse_whitespace_separated<T, F: Fn(&[char]) -> Option<T>>(input: &str, parse: F) -> (r: Vec<T>)
    requires
        forall|unit: &[char]| parse.requires((unit,)),
        reads_all(parse, words_of(input@)),
    ensures
        read_from(parse, words_of(input@), r@),
{
    let chars = to_chars(input);
    let units = words(chars.as_slice());
    parse_units(&units, parse, Ghost(words_of(input@)))
}

/// Index at which `word` first occurs in `s`, or the length of `s` if it
/// does not occur.
pub open spec fn first_occurrence(s: Seq<char>, word: Seq<char>) -> nat
    decreases s.len(),
{
    if s.len() < word.len() || s.len() == 0 {
        s.len()
    } else if s.take(word.len() as int) == word {
        0
    } else {
        1 + first_occurrence(s.drop_first(), word)
    }
}

/// The first occurrence is a place at which the word stands, and the
/// first such place.
pub proof fn lemma_first_occurrence_is(s: Seq<char>, word: Seq<char>, k: int)
    requires
        word.len() > 0,
        0 <= k <= s.len(),
        k < s.len() ==> k + word.len() <= s.len() && s.subrange(k, k + word.len()) == word,
        forall|i: int| 0 <= i < k && i + word.len() <= s.len() ==> #[trigger] s.subrange(i, i + word.len()) != word,
    ensures
        first_occurrence(s, word) == k,
    decreases s.len(),
{
    if s.len() >= word.len() {
        assert(s.take(word.len() as int) == s.subrange(0, 0 + word.len() as int));
        if k > 0 {
            let t = s.drop_first();
            assert forall|i: int| 0 <= i < k - 1 && i + word.len() <= t.len() implies #[trigger] t.subrange(
                i,
                i + word.len(),
            ) != word by {
                assert(t.subrange(i, i + word.len()) == s.subrange(i + 1, i + 1 + word.len()));
            }
            if k < s.len() {
                assert(t.subrange(k - 1, k - 1 + word.len()) == s.subrange(k, k + word.len()));
            }
            lemma_first_occurrence_is(t, word, k - 1);
        }
    }
}

/// The characters of `s`, each by itself, with an empty part before the
/// first and behind the last.
pub open spec fn each_apart(s: Seq<char>) -> Seq<Seq<char>> {
    Seq::new(
        s.len() + 2,
        |i: int|
            if 0 < i <= s.len() {
                seq![s[i - 1]]
            } else {
                Seq::empty()
            },
    )
}

/// The parts of `s` between the occurrences of `word`, read from the
/// left; the empty word occurs before and behind every character.
pub open spec fn separated_by(s: Seq<char>, word: Seq<char>) -> Seq<Seq<char>>
    decreases s.len(),
{
    let k = first_occurrence(s, word);
    if word.len() == 0 {
        each_apart(s)
    } else if k + word.len() > s.len() {
        seq![s]
    } else {
        seq![s.take(k as int)] + separated_by(s.skip(k as int + word.len()), word)
    }
}

/// Of the parts, those that hold more than white space, each without the
/// white space at its ends.
pub open spec fn filled_parts(parts: Seq<Seq<char>>) -> Seq<Seq<char>>
    decreases parts.len(),
{
    if parts.len() == 0 {
        seq![]
    } else if trimmed(parts.last()).len() == 0 {
        filled_parts(parts.drop_last())
    } else {
        filled_parts(parts.drop_last()).push(trimmed(parts.last()))
    }
}

/// Whether `word` stands in `s` at index `at`.
fn stands_at(s: &[char], word: &[char], at: usize) -> (r: bool)
    requires
        at + word@.len() <= s@.len(),
    ensures
        r == (s@.subrange(at as int, at + word@.len()) == word@),
{
    let len = s.len();
    let mut i: usize = 0;
    while i < word.len()
        invariant
            i <= word@.len(),
            len == s@.len(),
            at + word@.len() <= s@.len(),
            forall|j: int| 0 <= j < i ==> s@[at + j] == word@[j],
        decreases word@.len() - i,
    {
        if s[at + i] != word[i] {
            assert(s@.subrange(at as int, at + word@.len())[i as int] != word@[i as int]);
            return false;
        }
        i += 1;
    }
    assert(s@.subrange(at as int, at + word@.len()) =~= word@);
    true
}

/// The characters of `s` other than white space, each by itself.
fn single_units<'a>(s: &'a [char]) -> (units: Vec<&'a [char]>)
    ensures
        units@.len() == filled_parts(each_apart(s@)).len(),
        forall|i: int| 0 <= i < units@.len() ==> (#[trigger] units@[i])@ == filled_parts(each_apart(s@))[i],
{
    let ghost all = each_apart(s@);
    let mut units: Vec<&'a [char]> = Vec::new();
    let mut i: usize = 0;
    proof {
        assert(all.take(1).drop_last() =~= Seq::<Seq<char>>::empty());
        assert(all.take(1).last() == Seq::<char>::empty());
        assert(trimmed(Seq::<char>::empty()).len() == 0);
        assert(filled_parts(all.take(1)) == filled_parts(Seq::<Seq<char>>::empty()));
    }
    while i < s.len()
        invariant
            i <= s@.len(),
            all == each_apart(s@),
            units@.len() == filled_parts(all.take(i + 1)).len(),
            forall|j: int| 0 <= j < units@.len() ==> (#[trigger] units@[j])@ == filled_parts(all.take(i + 1))[j],
        decreases s@.len() - i,
    {
        let c = s[i];
        proof {
            let one = seq![c];
            assert(all.take(i + 2).drop_last() == all.take(i + 1));
            assert(all.take(i + 2).last() == one);
            assert(one.drop_first().len() == 0);
            assert(one.drop_last().len() == 0);
            assert(one[0] == c && one.last() == c);
            if is_space(c) {
                assert(trimmed_start(one) == trimmed_start(one.drop_first()));
                assert(trimmed(one).len() == 0);
            } else {
                assert(trimmed_start(one) == one);
                assert(trimmed(one) == one);
            }
            assert(s@.subrange(i as int, i + 1) =~= one);
        }
        if !is_whitespace(c) {
            units.push(slice_subrange(s, i, i + 1));
        }
        i += 1;
    }
    proof {
        assert(all.drop_last() == all.take(i + 1));
        assert(all.last() == Seq::<char>::empty());
        assert(trimmed(Seq::<char>::empty()).len() == 0);
    }
    units
}

/// The parts of `s` between the occurrences of `word` that hold more than
/// white space, each without the white space at its ends.
fn split_units<'a>(s: &'a [char], word: &[char]) -> (units: Vec<&'a [char]>)
    requires
        word@.len() > 0,
    ensures
        units@.len() == filled_parts(separated_by(s@, word@)).len(),
        forall|i: int|
            0 <= i < units@.len() ==> (#[trigger] units@[i])@ == filled_parts(separated_by(s@, word@))[i],
{
    let ghost all = separated_by(s@, word@);
    let mut units: Vec<&'a [char]> = Vec::new();
    let ghost mut seen: int = 0;
    let mut pos: usize = 0;
    assert(s@.skip(0) == s@);
    assert(all.take(0).len() == 0);
    loop
        invariant_except_break
            pos <= s@.len(),
            word@.len() > 0,
            all == separated_by(s@, word@),
            0 <= seen,
            all.len() == seen + separated_by(s@.skip(pos as int), word@).len(),
            forall|i: int|
                0 <= i < separated_by(s@.skip(pos as int), word@).len() ==> all[seen + i]
                    == #[trigger] separated_by(s@.skip(pos as int), word@)[i],
            units@.len() == filled_parts(all.take(seen)).len(),
            forall|i: int| 0 <= i < units@.len() ==> (#[trigger] units@[i])@ == filled_parts(all.take(seen))[i],
        ensures
            units@.len() == filled_parts(all).len(),
            forall|i: int| 0 <= i < units@.len() ==> (#[trigger] units@[i])@ == filled_parts(all)[i],
        decreases s@.len() - pos,
    {
        let ghost rest = s@.skip(pos as int);
        let mut k: usize = pos;
        while k < s.len() && !(word.len() <= s.len() - k && stands_at(s, word, k))
            invariant
                pos <= k <= s@.len(),
                word@.len() > 0,
                forall|i: int|
                    pos <= i < k && i + word@.len() <= s@.len() ==> #[trigger] s@.subrange(i, i + word@.len())
                        != word@,
            decreases s@.len() - k,
        {
            k += 1;
        }
        proof {
            assert forall|i: int| 0 <= i < k - pos && i + word@.len() <= rest.len() implies #[trigger] rest.subrange(
                i,
                i + word@.len(),
            ) != word@ by {
                assert(rest.subrange(i, i + word@.len()) == s@.subrange(pos + i, pos + i + word@.len()));
            }
            if k < s@.len() {
                assert(rest.subrange(k - pos, k - pos + word@.len()) == s@.subrange(k as int, k + word@.len()));
            }
            lemma_first_occurrence_is(rest, word@, k - pos);
            assert(rest.take(k - pos) == s@.subrange(pos as int, k as int));
            assert(separated_by(rest, word@)[0] == rest.take(k - pos));
            assert(all[seen] == separated_by(rest, word@)[0]);
            assert(all.take(seen + 1).drop_last() == all.take(seen));
            assert(all.take(seen + 1).last() == all[seen]);
        }
        let part = trim(slice_subrange(s, pos, k));
        if part.len() > 0 {
            units.push(part);
        }
        if k >= s.len() {
            proof {
                assert(separated_by(rest, word@).len() == 1);
                assert(all.take(seen + 1) == all);
            }
            break ;
        }
        proof {
            assert(rest.skip(k - pos + word@.len()) == s@.skip(k + word@.len()));
            let tail = separated_by(s@.skip(k + word@.len()), word@);
            assert(separated_by(rest, word@) == seq![rest.take(k - pos)] + tail);
            assert forall|i: int| 0 <= i < tail.len() implies all[seen + 1 + i] == #[trigger] tail[i] by {
                assert(separated_by(rest, word@)[i + 1] == tail[i]);
            }
            seen = seen + 1;
        }
        pos = k + word.len();
    }
    units
}

/// Reads a value from each part of `input` between two occurrences of
/// `separator` that holds more than white space, the part taken without
/// the white space at its ends.
pub fn parse_custom_separated<T, F: Fn(&[char]) -> Option<T>>(input: &str, separator: &str, parse: F) -> (r:
    Vec<T>)
    requires
        forall|unit: &[char]| parse.requires((unit,)),
        reads_all(parse, filled_parts(separated_by(input@, separator@))),
    ensures
        read_from(parse, filled_parts(separated_by(input@, separator@)), r@),
{
    let chars = to_chars(input);
    let s = chars.as_slice();
    let mark = to_chars(separator);
    let word = mark.as_slice();
    let units = if word.len() == 0 {
        single_units(s)
    } else {
        split_units(s, word)
    };
    parse_units(&units, parse, Ghost(filled_parts(separated_by(input@, separator@))))
}

} // verus!
