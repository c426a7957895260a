use crate::text::{
    entries, entries_of, first_field, number_of, parse_u64, second_field, split_pair, to_chars, trim, trimmed,
};
use vstd::prelude::*;

verus! {

/// The sections from `first` to `last`, both included; none where `last`
/// is below `first`.
#[derive(Debug, Clone, Copy, PartialEq, Eq, Structural)]
pub struct Assignment {
    pub first: u64,
    pub last: u64,
}

impl Assignment {
    /// Whether section `v` is one of these.
    pub open spec fn holds(self, v: int) -> bool {
        self.first <= v <= self.last
    }

    /// Whether the bounds of `other` lie within the bounds of `self`.
    pub open spec fn spec_fully_contains(self, other: Assignment) -> bool {
        self.first <= other.first && self.last >= other.last
    }

    /// Whether some section belongs to both.
    pub open spec fn spec_overlaps(self, other: Assignment) -> bool {
        exists|v: int| self.holds(v) && other.holds(v)
    }

    /// Whether the bounds of `other` lie within the bounds of `self`.
    pub fn fully_contains(&self, other: &Assignment) -> (r: bool)
        ensures
            r == self.spec_fully_contains(*other),
    {
        self.first <= other.first && self.last >= other.last
    }

    /// Whether some section belongs to both.
    pub fn overlaps(&self, other: &Assignment) -> (r: bool)
        ensures
            r == self.spec_overlaps(*other),
    {
        let r = self.first <= self.last && other.first <= other.last && self.first <= other.last
            && other.first <= self.last;
        proof {
            if r {
                let v = if self.first >= other.first {
                    self.first as int
                } else {
                    other.first as int
                };
                assert(self.holds(v) && other.holds(v));
            }
        }
        r
    }
}

/// Whether the bounds of one assignment lie within those of the other.
pub open spec fn one_within_other(pair: (Assignment, Assignment)) -> bool {
    pair.0.spec_fully_contains(pair.1) || pair.1.spec_fully_contains(pair.0)
}

/// Whether the bounds of one assignment lie within those of the other.
pub fn either_fully_contains(lhs: &Assignment, rhs: &Assignment) -> (r: bool)
    ensures
        r == one_within_other((*lhs, *rhs)),
{
    lhs.fully_contains(rhs) || rhs.fully_contains(lhs)
}

/// The assignment a text stands for: two numbers with a hyphen between
/// them, each with or without white space around it.
pub open spec fn assignment_of(s: Seq<char>) -> Option<Assignment> {
    match second_field(s, '-') {
        None => None,
        Some(upper) => match (number_of(trimmed(first_field(s, '-'))), number_of(trimmed(upper))) {
            (Some(first), Some(last)) => Some(Assignment { first, last }),
            _ => None,
        },
    }
}

/// Reads an assignment.
pub fn parse_range(s: &[char]) -> (r: Option<Assignment>)
    ensures
        r == assignment_of(s@),
{
    match split_pair(s, '-') {
        None => None,
        Some((lower, upper)) => match (parse_u64(trim(lower)), parse_u64(trim(upper))) {
            (Some(first), Some(last)) => Some(Assignment { first, last }),
            _ => None,
        },
    }
}

/// The pair of assignments a line stands for: two assignments with a
/// comma between them.
pub open spec fn pair_of(line: Seq<char>) -> Option<(Assignment, Assignment)> {
    match second_field(line, ',') {
        None => None,
        Some(right) => match (assignment_of(first_field(line, ',')), assignment_of(right)) {
            (Some(l), Some(r)) => Some((l, r)),
            _ => None,
        },
    }
}

/// Reads a pair of assignments.
pub fn parse_pair(line: &[char]) -> (r: Option<(Assignment, Assignment)>)
    ensures
        r == pair_of(line@),
{
    match split_pair(line, ',') {
        None => None,
        Some((left, right)) => match (parse_range(left), parse_range(right)) {
            (Some(l), Some(r)) => Some((l, r)),
            _ => None,
        },
    }
}

/// Every entry of the text is a pair of assignments.
pub open spec fn readable(s: Seq<char>) -> bool {
    forall|i: int| 0 <= i < entries_of(s).len() ==> pair_of(#[trigger] entries_of(s)[i]) is Some
}

/// The pairs of a text, one for each entry.
pub open spec fn pairs_of(s: Seq<char>) -> Seq<(Assignment, Assignment)> {
    entries_of(s).map_values(|line: Seq<char>| pair_of(line)->0)
}

/// Reads the pairs of a text, or nothing where an entry is none.
pub fn parse(input: &str) -> (r: Option<Vec<(Assignment, Assignment)>>)
    ensures
        r is Some <==> readable(input@),
        r matches Some(v) ==> v@ == pairs_of(input@),
{
    let chars = to_chars(input);
    let es = entries(chars.as_slice());
    let ghost all = entries_of(input@);
    let mut v: Vec<(Assignment, Assignment)> = Vec::new();
    let mut i: usize = 0;
    while i < es.len()
        invariant
            i <= es@.len(),
            es@.len() == all.len(),
            all == entries_of(input@),
            forall|j: int| 0 <= j < es@.len() ==> (#[trigger] es@[j])@ == all[j],
            v@.len() == i,
            forall|j: int| 0 <= j < i ==> pair_of(#[trigger] all[j]) == Some(v@[j]),
        decreases es@.len() - i,
    {
        match parse_pair(es[i]) {
            None => {
                assert(pair_of(all[i as int]) is None);
                return None;
            },
            Some(p) => {
                v.push(p);
            },
        }
        i += 1;
    }
    assert(v@ =~= pairs_of(input@));
    Some(v)
}

/// Number of pairs in which the bounds of one assignment lie within those
/// of the other.
pub open spec fn count_within(pairs: Seq<(Assignment, Assignment)>) -> nat
    decreases pairs.len(),
{
    if pairs.len() == 0 {
        0
    } else {
        count_within(pairs.drop_last()) + if one_within_other(pairs.last()) {
            1nat
        } else {
            0nat
        }
    }
}

/// Number of pairs in which the assignments share a section.
pub open spec fn count_overlapping(pairs: Seq<(Assignment, Assignment)>) -> nat
    decreases pairs.len(),
{
    if pairs.len() == 0 {
        0
    } else {
        count_overlapping(pairs.drop_last()) + if pairs.last().0.spec_overlaps(pairs.last().1) {
            1nat
        } else {
            0nat
        }
    }
}

/// Number of pairs of `input` in which one assignment lies within the
/// other.
pub fn star_one(input: &str) -> (r: usize)
    requires
        readable(input@),
    ensures
        r == count_within(pairs_of(input@)),
{
    match parse(input) {
        None => vstd::pervasive::unreached(),
        Some(v) => {
            let mut count: usize = 0;
            let mut i: usize = 0;
            assert(v@.take(0).len() == 0);
            while i < v.len()
                invariant
                    i <= v@.len(),
                    count <= i,
                    count == count_within(v@.take(i as int)),
                decreases v@.len() - i,
            {
                assert(v@.take(i + 1).drop_last() == v@.take(i as int));
                if either_fully_contains(&v[i].0, &v[i].1) {
                    count += 1;
                }
                i += 1;
            }
            assert(v@.take(i as int) == v@);
            count
        },
    }
}

/// Number of pairs of `input` in which the assignments share a section.
pub fn star_two(input: &str) -> (r: usize)
    requires
        readable(input@),
    ensures
        r == count_overlapping(pairs_of(input@)),
{
    match parse(input) {
        None => vstd::pervasive::unreached(),
        Some(v) => {
            let mut count: usize = 0;
            let mut i: usize = 0;
            assert(v@.take(0).len() == 0);
            while i < v.len()
                invariant
                    i <= v@.len(),
                    count <= i,
                    count == count_overlapping(v@.take(i as int)),
                decreases v@.len() - i,
            {
                assert(v@.take(i + 1).drop_last() == v@.take(i as int));
                if v[i].0.overlaps(&v[i].1) {
                    count += 1;
                }
                i += 1;
            }
            assert(v@.take(i as int) == v@);
            count
        },
    }
}

} // verus!
