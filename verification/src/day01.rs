use crate::text::{lines, lines_of, number_of, parse_u64, parts_of, split_by_pair, to_chars, trim, trimmed};
use vstd::prelude::*;

verus! {

/// The groups of `s`: the text between blank lines.
pub open spec fn groups_of(s: Seq<char>) -> Seq<Seq<char>> {
    parts_of(s, '\n', '\n')
}

/// Sum of the lines that are numbers; other lines count as nothing.
pub open spec fn sum_of_lines(ls: Seq<Seq<char>>) -> nat
    decreases ls.len(),
{
    if ls.len() == 0 {
        0
    } else {
        sum_of_lines(ls.drop_last()) + match number_of(ls.last()) {
            Some(v) => v as nat,
            None => 0,
        }
    }
}

/// What one elf carries: the sum of the numbers in its group.
pub open spec fn group_total(g: Seq<char>) -> nat {
    sum_of_lines(lines_of(g))
}

/// What each elf carries, in the order of the text.
pub open spec fn totals_of(s: Seq<char>) -> Seq<nat> {
    groups_of(trimmed(s)).map_values(|g: Seq<char>| group_total(g))
}

/// Every elf's load fits 64 bits.
pub open spec fn loads_fit(s: Seq<char>) -> bool {
    forall|i: int| 0 <= i < totals_of(s).len() ==> #[trigger] totals_of(s)[i] <= u64::MAX
}

/// A sum of lines is no smaller than the sum of the lines before any
/// point.
pub proof fn lemma_sum_of_lines_grows(ls: Seq<Seq<char>>, k: int)
    requires
        0 <= k <= ls.len(),
    ensures
        sum_of_lines(ls.take(k)) <= sum_of_lines(ls),
    decreases ls.len() - k,
{
    if k < ls.len() {
        lemma_sum_of_lines_grows(ls, k + 1);
        assert(ls.take(k + 1).drop_last() == ls.take(k));
    } else {
        assert(ls.take(k) == ls);
    }
}

/// Adds up the numbers of one group.
pub fn group_sum(group: &[char]) -> (total: u64)
    requires
        group_total(group@) <= u64::MAX,
    ensures
        total == group_total(group@),
{
    let ls = lines(group);
    let ghost all = lines_of(group@);
    let mut total: u64 = 0;
    let mut i: usize = 0;
    assert(all.take(0).len() == 0);
    while i < ls.len()
        invariant
            i <= ls@.len(),
            ls@.len() == all.len(),
            forall|j: int| 0 <= j < ls@.len() ==> (#[trigger] ls@[j])@ == all[j],
            total == sum_of_lines(all.take(i as int)),
            sum_of_lines(all) <= u64::MAX,
        decreases ls@.len() - i,
    {
        proof {
            assert(all.take(i + 1).drop_last() == all.take(i as int));
            assert(all.take(i + 1).last() == ls@[i as int]@);
            lemma_sum_of_lines_grows(all, i + 1);
        }
        match parse_u64(ls[i]) {
            Some(v) => {
                total = total + v;
            },
            None => {},
        }
        i += 1;
    }
    assert(all.take(i as int) == all);
    total
}

/// Reads what each elf carries.
pub fn parse(input: &str) -> (totals: Vec<u64>)
    requires
        loads_fit(input@),
    ensures
        totals@.len() == totals_of(input@).len(),
        totals@.len() > 0,
        forall|i: int| 0 <= i < totals@.len() ==> #[trigger] totals@[i] == totals_of(input@)[i],
{
    let chars = to_chars(input);
    let groups = split_by_pair(trim(chars.as_slice()), '\n', '\n');
    let ghost all = groups_of(trimmed(input@));
    let mut totals: Vec<u64> = Vec::new();
    let mut i: usize = 0;
    while i < groups.len()
        invariant
            i <= groups@.len(),
            groups@.len() == all.len(),
            all == groups_of(trimmed(input@)),
            loads_fit(input@),
            forall|j: int| 0 <= j < groups@.len() ==> (#[trigger] groups@[j])@ == all[j],
            totals@.len() == i,
            forall|j: int| 0 <= j < i ==> #[trigger] totals@[j] == totals_of(input@)[j],
        decreases groups@.len() - i,
    {
        assert(totals_of(input@)[i as int] == group_total(all[i as int]));
        totals.push(group_sum(groups[i]));
        i += 1;
    }
    totals
}

/// `m` is the greatest of `values`.
pub open spec fn is_greatest(values: Seq<nat>, m: nat) -> bool {
    &&& exists|i: int| 0 <= i < values.len() && values[i] == m
    &&& forall|i: int| 0 <= i < values.len() ==> values[i] <= m
}

/// The heaviest load among the elves of `input`.
pub fn star_one(input: &str) -> (r: u64)
    requires
        loads_fit(input@),
    ensures
        is_greatest(totals_of(input@), r as nat),
{
    let totals = parse(input);
    let mut best: u64 = totals[0];
    let mut i: usize = 1;
    while i < totals.len()
        invariant
            1 <= i <= totals@.len(),
            exists|j: int| 0 <= j < i && totals@[j] == best,
            forall|j: int| 0 <= j < i ==> totals@[j] <= best,
        decreases totals@.len() - i,
    {
        if totals[i] > best {
            best = totals[i];
        }
        i += 1;
    }
    proof {
        let j = choose|j: int| 0 <= j < i && totals@[j] == best;
        assert(totals_of(input@)[j] == best);
        assert forall|k: int| 0 <= k < totals_of(input@).len() implies totals_of(input@)[k] <= best by {
            assert(totals@[k] == totals_of(input@)[k]);
        }
    }
    best
}

/// The three greatest of three values and one more, greatest first.
pub open spec fn with_one_more(top: (nat, nat, nat), v: nat) -> (nat, nat, nat) {
    if v > top.0 {
        (v, top.0, top.1)
    } else if v > top.1 {
        (top.0, v, top.1)
    } else if v > top.2 {
        (top.0, top.1, v)
    } else {
        top
    }
}

/// The three greatest of `values`, greatest first; zero stands in where
/// there are fewer than three.
pub open spec fn top_three(values: Seq<nat>) -> (nat, nat, nat)
    decreases values.len(),
{
    if values.len() == 0 {
        (0, 0, 0)
    } else {
        with_one_more(top_three(values.drop_last()), values.last())
    }
}

/// Sum of the three greatest of `values`.
pub open spec fn top_three_sum(values: Seq<nat>) -> nat {
    top_three(values).0 + top_three(values).1 + top_three(values).2
}

/// Sum of the values at two indices.
pub open spec fn two_of(values: Seq<nat>, i: int, j: int) -> nat {
    values[i] + values[j]
}

/// Sum of the values at three indices.
pub open spec fn three_of(values: Seq<nat>, i: int, j: int, k: int) -> nat {
    values[i] + values[j] + values[k]
}

/// The three greatest are in order, no value is greater than the first of
/// them, no two values sum to more than the first two, and no three to
/// more than all three.
pub proof fn lemma_top_three_bounds(values: Seq<nat>)
    ensures
        top_three(values).0 >= top_three(values).1 >= top_three(values).2,
        forall|i: int| 0 <= i < values.len() ==> #[trigger] values[i] <= top_three(values).0,
        forall|i: int, j: int|
            0 <= i < j < values.len() ==> #[trigger] two_of(values, i, j) <= top_three(values).0 + top_three(
                values,
            ).1,
        forall|i: int, j: int, k: int|
            0 <= i < j < k < values.len() ==> #[trigger] three_of(values, i, j, k) <= top_three_sum(values),
    decreases values.len(),
{
    if values.len() > 0 {
        let rest = values.drop_last();
        let n = values.len() - 1;
        let t = top_three(rest);
        let x = values[n];
        lemma_top_three_bounds(rest);
        assert(top_three(values) == with_one_more(t, x));
        assert forall|i: int| 0 <= i < values.len() implies #[trigger] values[i] <= top_three(values).0 by {
            if i < n {
                assert(rest[i] == values[i]);
            }
        }
        assert forall|i: int, j: int| 0 <= i < j < values.len() implies #[trigger] two_of(values, i, j)
            <= top_three(values).0 + top_three(values).1 by {
            assert(rest[i] == values[i]);
            assert(rest[i] <= t.0);
            if j < n {
                assert(rest[j] == values[j]);
                assert(two_of(rest, i, j) <= t.0 + t.1);
            }
        }
        assert forall|i: int, j: int, k: int| 0 <= i < j < k < values.len() implies #[trigger] three_of(
            values,
            i,
            j,
            k,
        ) <= top_three_sum(values) by {
            assert(rest[i] == values[i]);
            assert(rest[j] == values[j]);
            assert(two_of(rest, i, j) <= t.0 + t.1);
            if k < n {
                assert(rest[k] == values[k]);
                assert(three_of(rest, i, j, k) <= top_three_sum(rest));
            }
        }
    }
}

/// Among three values or more, the three greatest are three of the
/// values.
pub proof fn lemma_top_three_held(values: Seq<nat>)
    requires
        values.len() >= 3,
    ensures
        exists|i: int, j: int, k: int|
            0 <= i < values.len() && 0 <= j < values.len() && 0 <= k < values.len() && i != j && j != k && i
                != k && #[trigger] values[i] == top_three(values).0 && #[trigger] values[j] == top_three(
                values,
            ).1 && #[trigger] values[k] == top_three(values).2,
    decreases values.len(),
{
    let rest = values.drop_last();
    let n = values.len() - 1;
    let x = values[n];
    if values.len() == 3 {
        let one = rest.drop_last();
        let none = one.drop_last();
        let a = values[0];
        let b = values[1];
        assert(top_three(none) == (0nat, 0nat, 0nat));
        assert(one.last() == a && rest.last() == b);
        assert(top_three(one) == with_one_more((0nat, 0nat, 0nat), a));
        assert(top_three(rest) == with_one_more(top_three(one), b));
        assert(top_three(values) == with_one_more(top_three(rest), x));
        let t = top_three(values);
        // each of the six orders of three values
        let (i, j, k): (int, int, int) = if a >= b && b >= x {
            (0, 1, 2)
        } else if a >= x && x > b {
            (0, 2, 1)
        } else if b > a && a >= x {
            (1, 0, 2)
        } else if b >= x && x > a {
            (1, 2, 0)
        } else if x > a && a >= b {
            (2, 0, 1)
        } else {
            (2, 1, 0)
        };
        assert(values[i] == t.0 && values[j] == t.1 && values[k] == t.2);
    } else {
        lemma_top_three_held(rest);
        let t = top_three(rest);
        let (i, j, k) = choose|i: int, j: int, k: int|
            0 <= i < rest.len() && 0 <= j < rest.len() && 0 <= k < rest.len() && i != j && j != k && i != k
                && #[trigger] rest[i] == t.0 && #[trigger] rest[j] == t.1 && #[trigger] rest[k] == t.2;
        assert(values[i] == rest[i] && values[j] == rest[j] && values[k] == rest[k]);
        let u = top_three(values);
        assert(u == with_one_more(t, x));
        let (a, b, c): (int, int, int) = if x > t.0 {
            (n, i, j)
        } else if x > t.1 {
            (i, n, j)
        } else if x > t.2 {
            (i, j, n)
        } else {
            (i, j, k)
        };
        assert(values[a] == u.0 && values[b] == u.1 && values[c] == u.2);
    }
}

/// What the three elves with the heaviest loads carry together.
pub fn star_two(input: &str) -> (r: u64)
    requires
        loads_fit(input@),
        top_three_sum(totals_of(input@)) <= u64::MAX,
    ensures
        r == top_three_sum(totals_of(input@)),
{
    let totals = parse(input);
    let ghost all = totals_of(input@);
    let mut a: u64 = 0;
    let mut b: u64 = 0;
    let mut c: u64 = 0;
    let mut i: usize = 0;
    assert(all.take(0).len() == 0);
    while i < totals.len()
        invariant
            i <= totals@.len(),
            totals@.len() == all.len(),
            forall|j: int| 0 <= j < totals@.len() ==> #[trigger] totals@[j] == all[j],
            top_three(all.take(i as int)) == (a as nat, b as nat, c as nat),
        decreases totals@.len() - i,
    {
        let v = totals[i];
        proof {
            assert(all.take(i + 1).drop_last() == all.take(i as int));
            assert(all.take(i + 1).last() == v);
        }
        if v > a {
            c = b;
            b = a;
            a = v;
        } else if v > b {
            c = b;
            b = v;
        } else if v > c {
            c = v;
        }
        i += 1;
    }
    assert(all.take(i as int) == all);
    a + b + c
}

} // verus!
