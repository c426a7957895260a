use crate::text::{entries, entries_of, to_chars as chars_of};
use vstd::prelude::*;
use vstd::slice::slice_subrange;

verus! {

/// Number of kinds of item: the letters `a` to `z` and `A` to `Z`.
pub const KINDS: usize = 52;

/// The priority of an item: 1 to 26 for `a` to `z`, 27 to 52 for `A` to
/// `Z`; other characters have none.
pub open spec fn priority_of(c: char) -> Option<u64> {
    if 'a' <= c <= 'z' {
        Some((c as u32 - 96) as u64)
    } else if 'A' <= c <= 'Z' {
        Some((c as u32 - 38) as u64)
    } else {
        None
    }
}

/// The priority of an item.
pub fn priority(c: &char) -> (p: u64)
    requires
        priority_of(*c) is Some,
    ensures
        Some(p) == priority_of(*c),
        1 <= p <= KINDS,
{
    let n = *c as u32;
    if 'a' <= *c && *c <= 'z' {
        (n - 96) as u64
    } else {
        (n - 38) as u64
    }
}

/// The item with priority `p`.
pub open spec fn item_of(p: int) -> char {
    if p <= 26 {
        (p + 96) as char
    } else {
        (p + 38) as char
    }
}

/// For each priority from 1 to 52, at index one less, whether `s` holds
/// the item of that priority.
pub open spec fn kinds_in(s: Seq<char>) -> Seq<bool> {
    Seq::new(KINDS as nat, |i: int| s.contains(item_of(i + 1)))
}

/// The kinds of item that `s` holds.
pub fn to_chars(s: &[char]) -> (kinds: Vec<bool>)
    ensures
        kinds@ == kinds_in(s@),
{
    let mut kinds: Vec<bool> = Vec::new();
    let mut k: usize = 0;
    while k < KINDS
        invariant
            k <= KINDS,
            kinds@.len() == k,
            forall|i: int| 0 <= i < k ==> !#[trigger] kinds@[i],
        decreases KINDS - k,
    {
        kinds.push(false);
        k += 1;
    }
    let mut i: usize = 0;
    assert(s@.take(0).len() == 0);
    while i < s.len()
        invariant
            i <= s@.len(),
            kinds@.len() == KINDS,
            forall|p: int| 0 <= p < KINDS ==> #[trigger] kinds@[p] == s@.take(i as int).contains(item_of(p + 1)),
        decreases s@.len() - i,
    {
        let c = s[i];
        let ghost before = s@.take(i as int);
        let ghost after = s@.take(i + 1);
        proof {
            assert(after == before.push(c));
            assert forall|x: char| after.contains(x) <==> before.contains(x) || x == c by {
                if before.contains(x) {
                    let j = choose|j: int| 0 <= j < before.len() && before[j] == x;
                    assert(after[j] == x);
                }
                if x == c {
                    assert(after[i as int] == c);
                }
                if after.contains(x) {
                    let j = choose|j: int| 0 <= j < after.len() && after[j] == x;
                    if j < i {
                        assert(before[j] == x);
                    }
                }
            }
        }
        if ('a' <= c && c <= 'z') || ('A' <= c && c <= 'Z') {
            let p = priority(&c);
            assert(item_of(p as int) == c);
            kinds.set((p - 1) as usize, true);
            assert forall|q: int| 0 <= q < KINDS implies #[trigger] kinds@[q] == after.contains(
                item_of(q + 1),
            ) by {
                if q != p - 1 {
                    assert(item_of(q + 1) != c);
                }
            }
        } else {
            assert forall|q: int| 0 <= q < KINDS implies #[trigger] kinds@[q] == after.contains(
                item_of(q + 1),
            ) by {
                assert(item_of(q + 1) != c);
            }
        }
        i += 1;
    }
    assert(s@.take(i as int) == s@);
    assert(kinds@ =~= kinds_in(s@));
    kinds
}

/// The kinds that both `a` and `b` mark.
pub open spec fn both(a: Seq<bool>, b: Seq<bool>) -> Seq<bool> {
    Seq::new(KINDS as nat, |i: int| a[i] && b[i])
}

/// The kinds that both `a` and `b` mark.
pub fn intersection(a: &Vec<bool>, b: &Vec<bool>) -> (r: Vec<bool>)
    requires
        a@.len() == KINDS,
        b@.len() == KINDS,
    ensures
        r@ == both(a@, b@),
{
    let mut r: Vec<bool> = Vec::new();
    let mut k: usize = 0;
    while k < KINDS
        invariant
            k <= KINDS,
            a@.len() == KINDS,
            b@.len() == KINDS,
            r@.len() == k,
            forall|i: int| 0 <= i < k ==> #[trigger] r@[i] == (a@[i] && b@[i]),
        decreases KINDS - k,
    {
        r.push(a[k] && b[k]);
        k += 1;
    }
    assert(r@ =~= both(a@, b@));
    r
}

/// Sum of the priorities of the first `n` kinds that `kinds` marks.
pub open spec fn priority_sum(kinds: Seq<bool>, n: nat) -> nat
    decreases n,
{
    if n == 0 {
        0
    } else {
        priority_sum(kinds, (n - 1) as nat) + if kinds[n - 1] {
            n
        } else {
            0
        }
    }
}

/// No more than a rucksack or a group can score.
pub const MOST: u64 = 2704;

/// Each of the first `n` kinds adds at most the number of kinds.
pub proof fn lemma_priority_sum_bound(kinds: Seq<bool>, n: nat)
    requires
        n <= KINDS,
    ensures
        priority_sum(kinds, n) <= n * KINDS,
    decreases n,
{
    if n > 0 {
        lemma_priority_sum_bound(kinds, (n - 1) as nat);
    }
}

/// Sum of the priorities of the kinds that `kinds` marks.
pub fn sum_priorities(kinds: &Vec<bool>) -> (r: u64)
    requires
        kinds@.len() == KINDS,
    ensures
        r == priority_sum(kinds@, KINDS as nat),
        r <= MOST,
{
    let mut r: u64 = 0;
    let mut k: usize = 0;
    while k < KINDS
        invariant
            k <= KINDS,
            kinds@.len() == KINDS,
            r == priority_sum(kinds@, k as nat),
        decreases KINDS - k,
    {
        proof {
            lemma_priority_sum_bound(kinds@, k as nat);
        }
        if kinds[k] {
            r = r + (k as u64 + 1);
        }
        k += 1;
    }
    proof {
        lemma_priority_sum_bound(kinds@, KINDS as nat);
    }
    r
}

/// Number of bytes that write the character in UTF-8.
pub open spec fn width_of(c: char) -> nat {
    let n = c as u32;
    if n < 0x80 {
        1
    } else if n < 0x800 {
        2
    } else if n < 0x10000 {
        3
    } else {
        4
    }
}

/// Number of bytes that write the text in UTF-8.
pub open spec fn bytes_of(s: Seq<char>) -> nat
    decreases s.len(),
{
    if s.len() == 0 {
        0
    } else {
        bytes_of(s.drop_last()) + width_of(s.last())
    }
}

/// The first `k` characters of the rucksack are written by the first half
/// of its bytes, the half rounded down.
pub open spec fn halves_at(sack: Seq<char>, k: int) -> bool {
    0 <= k <= sack.len() && bytes_of(sack.take(k)) == bytes_of(sack) / 2
}

/// Number of characters in the first compartment of the rucksack: those
/// written by the first half of its bytes.
pub open spec fn middle(sack: Seq<char>) -> int {
    choose|k: int| halves_at(sack, k)
}

/// More characters take more bytes.
pub proof fn lemma_bytes_grow(s: Seq<char>, i: int, j: int)
    requires
        0 <= i <= j <= s.len(),
    ensures
        bytes_of(s.take(i)) + (j - i) <= bytes_of(s.take(j)),
    decreases j - i,
{
    if i < j {
        lemma_bytes_grow(s, i, j - 1);
        assert(s.take(j).drop_last() == s.take(j - 1));
    }
}

/// A rucksack is halved at one place at most.
pub proof fn lemma_middle(sack: Seq<char>, k: int)
    requires
        halves_at(sack, k),
    ensures
        middle(sack) == k,
{
    let m = middle(sack);
    if m < k {
        lemma_bytes_grow(sack, m, k);
    } else if k < m {
        lemma_bytes_grow(sack, k, m);
    }
}

/// What a rucksack scores: the priorities of the kinds of item found in
/// both of its compartments.
pub open spec fn sack_score(sack: Seq<char>) -> nat {
    priority_sum(
        both(kinds_in(sack.take(middle(sack))), kinds_in(sack.skip(middle(sack)))),
        KINDS as nat,
    )
}

/// What the first `n` rucksacks score together.
pub open spec fn sacks_score(sacks: Seq<Seq<char>>, n: nat) -> nat
    decreases n,
{
    if n == 0 {
        0
    } else {
        sacks_score(sacks, (n - 1) as nat) + sack_score(sacks[n - 1])
    }
}

/// Rucksacks score at most [`MOST`] each.
pub proof fn lemma_sacks_score_bound(sacks: Seq<Seq<char>>, n: nat)
    ensures
        sacks_score(sacks, n) <= n * MOST,
    decreases n,
{
    if n > 0 {
        lemma_sacks_score_bound(sacks, (n - 1) as nat);
        let sack = sacks[n - 1];
        let half = middle(sack);
        lemma_priority_sum_bound(both(kinds_in(sack.take(half)), kinds_in(sack.skip(half))), KINDS as nat);
    }
}

/// The rucksack can be halved between two characters, its bytes can be
/// counted in the machine's word, and every character found in both
/// compartments has a priority.
pub open spec fn sack_ok(sack: Seq<char>) -> bool {
    &&& bytes_of(sack) <= usize::MAX
    &&& exists|k: int| halves_at(sack, k)
    &&& forall|c: char|
        sack.take(middle(sack)).contains(c) && #[trigger] sack.skip(middle(sack)).contains(c) ==> priority_of(
            c,
        ) is Some
}

/// Number of bytes that write the character in UTF-8.
pub fn width(c: char) -> (w: usize)
    ensures
        w == width_of(c),
{
    let n = c as u32;
    if n < 0x80 {
        1
    } else if n < 0x800 {
        2
    } else if n < 0x10000 {
        3
    } else {
        4
    }
}

/// Number of characters in the first compartment of the rucksack.
pub fn find_middle(sack: &[char]) -> (k: usize)
    requires
        bytes_of(sack@) <= usize::MAX,
        exists|k: int| halves_at(sack@, k),
    ensures
        k == middle(sack@),
        k <= sack@.len(),
{
    let mut total: usize = 0;
    let mut i: usize = 0;
    assert(sack@.take(0).len() == 0);
    while i < sack.len()
        invariant
            i <= sack@.len(),
            bytes_of(sack@) <= usize::MAX,
            total == bytes_of(sack@.take(i as int)),
        decreases sack@.len() - i,
    {
        proof {
            lemma_bytes_grow(sack@, i + 1, sack@.len() as int);
            assert(sack@.take(sack@.len() as int) == sack@);
            assert(sack@.take(i + 1).drop_last() == sack@.take(i as int));
        }
        total = total + width(sack[i]);
        i += 1;
    }
    assert(sack@.take(i as int) == sack@);
    let half = total / 2;
    let mut before: usize = 0;
    let mut k: usize = 0;
    while k < sack.len() && before < half
        invariant
            k <= sack@.len(),
            total == bytes_of(sack@),
            half == total / 2,
            before == bytes_of(sack@.take(k as int)),
            forall|j: int| 0 <= j < k ==> bytes_of(#[trigger] sack@.take(j)) < half,
        decreases sack@.len() - k,
    {
        proof {
            lemma_bytes_grow(sack@, k + 1, sack@.len() as int);
            assert(sack@.take(sack@.len() as int) == sack@);
            assert(sack@.take(k + 1).drop_last() == sack@.take(k as int));
        }
        before = before + width(sack[k]);
        k += 1;
    }
    proof {
        let m = choose|m: int| halves_at(sack@, m);
        if m < k {
            assert(bytes_of(sack@.take(m)) < half);
        } else if m > k {
            lemma_bytes_grow(sack@, k as int, m);
        }
        assert(m == k);
        lemma_middle(sack@, k as int);
    }
    k
}

/// Every rucksack of the text is in order.
pub open spec fn sacks_ok(s: Seq<char>) -> bool {
    forall|i: int| 0 <= i < entries_of(s).len() ==> sack_ok(#[trigger] entries_of(s)[i])
}

/// Sum of the priorities of the kinds of item that lie in both halves of
/// a rucksack, over the rucksacks of `input`, one on each line.
pub fn star_one(input: &str) -> (r: u64)
    requires
        sacks_ok(input@),
        entries_of(input@).len() * MOST <= u64::MAX,
    ensures
        r == sacks_score(entries_of(input@), entries_of(input@).len()),
{
    let text = chars_of(input);
    let es = entries(text.as_slice());
    let ghost sacks = entries_of(input@);
    let mut total: u64 = 0;
    let mut i: usize = 0;
    while i < es.len()
        invariant
            i <= es@.len(),
            es@.len() == sacks.len(),
            forall|j: int| 0 <= j < es@.len() ==> (#[trigger] es@[j])@ == sacks[j],
            sacks.len() * MOST <= u64::MAX,
            sacks == entries_of(input@),
            sacks_ok(input@),
            total == sacks_score(sacks, i as nat),
        decreases es@.len() - i,
    {
        let sack = es[i];
        assert(sack_ok(sacks[i as int]));
        let half = find_middle(sack);
        let left = to_chars(slice_subrange(sack, 0, half));
        let right = to_chars(slice_subrange(sack, half, sack.len()));
        proof {
            assert(sack@.subrange(0, half as int) == sack@.take(half as int));
            assert(sack@.subrange(half as int, sack@.len() as int) == sack@.skip(half as int));
            lemma_sacks_score_bound(sacks, (i + 1) as nat);
        }
        total = total + sum_priorities(&intersection(&left, &right));
        i += 1;
    }
    total
}

/// The kinds of item found in each of the rucksacks from index `from` up
/// to, not including, index `to`.
pub open spec fn shared(sacks: Seq<Seq<char>>, from: int, to: int) -> Seq<bool>
    decreases to - from,
{
    if to <= from + 1 {
        kinds_in(sacks[from])
    } else {
        both(shared(sacks, from, to - 1), kinds_in(sacks[to - 1]))
    }
}

/// What the groups of three that start before rucksack `n` score: for
/// each group the priorities of the kinds of item that all its rucksacks
/// hold. The last group may have fewer than three rucksacks.
pub open spec fn groups_score(sacks: Seq<Seq<char>>, n: nat) -> nat
    decreases n,
{
    if n == 0 {
        0
    } else if n <= 3 {
        priority_sum(shared(sacks, 0, n as int), KINDS as nat)
    } else {
        let start = ((n - 1) / 3 * 3) as nat;
        groups_score(sacks, start) + priority_sum(shared(sacks, start as int, n as int), KINDS as nat)
    }
}

/// Whether each of the rucksacks from index `from` up to, not including,
/// index `to` holds the character `c`.
pub open spec fn held_by_all(sacks: Seq<Seq<char>>, from: int, to: int, c: char) -> bool {
    forall|j: int| from <= j < to ==> (#[trigger] sacks[j]).contains(c)
}

/// The rucksacks from index `from` up to, not including, index `to` have
/// a badge: one character, and no other, is held by all of them, and it
/// has a priority.
pub open spec fn has_badge(sacks: Seq<Seq<char>>, from: int, to: int) -> bool {
    exists|c: char|
        {
            &&& priority_of(c) is Some
            &&& #[trigger] held_by_all(sacks, from, to, c)
            &&& forall|d: char| #[trigger] held_by_all(sacks, from, to, d) ==> d == c
        }
}

/// The kinds found in each rucksack of a group are those of the
/// characters that all of them hold.
pub proof fn lemma_shared(sacks: Seq<Seq<char>>, from: int, to: int)
    requires
        from < to,
    ensures
        shared(sacks, from, to).len() == KINDS,
        forall|i: int|
            0 <= i < KINDS ==> #[trigger] shared(sacks, from, to)[i] == held_by_all(sacks, from, to, item_of(i + 1)),
    decreases to - from,
{
    if to > from + 1 {
        lemma_shared(sacks, from, to - 1);
        assert forall|i: int| 0 <= i < KINDS implies #[trigger] shared(sacks, from, to)[i] == held_by_all(
            sacks,
            from,
            to,
            item_of(i + 1),
        ) by {
            let c = item_of(i + 1);
            assert(shared(sacks, from, to - 1)[i] == held_by_all(sacks, from, to - 1, c));
            if held_by_all(sacks, from, to, c) {
                assert(sacks[to - 1].contains(c));
            }
        }
    } else {
        assert forall|i: int| 0 <= i < KINDS implies #[trigger] shared(sacks, from, to)[i] == held_by_all(
            sacks,
            from,
            to,
            item_of(i + 1),
        ) by {
            if held_by_all(sacks, from, to, item_of(i + 1)) {
                assert(sacks[from].contains(item_of(i + 1)));
            }
        }
    }
}

/// Where one kind alone is marked, the sum of the priorities is the
/// priority of that kind.
pub proof fn lemma_priority_sum_of_one(kinds: Seq<bool>, p: int, n: nat)
    requires
        1 <= p,
        forall|i: int| 0 <= i < n ==> #[trigger] kinds[i] == (i == p - 1),
    ensures
        priority_sum(kinds, n) == if p <= n {
            p
        } else {
            0
        },
    decreases n,
{
    if n > 0 {
        lemma_priority_sum_of_one(kinds, p, (n - 1) as nat);
    }
}

/// A group with a badge scores the priority of its badge.
pub proof fn lemma_badge(sacks: Seq<Seq<char>>, from: int, to: int, badge: char)
    requires
        from < to,
        priority_of(badge) is Some,
        held_by_all(sacks, from, to, badge),
        forall|d: char| #[trigger] held_by_all(sacks, from, to, d) ==> d == badge,
    ensures
        priority_sum(shared(sacks, from, to), KINDS as nat) == priority_of(badge)->0,
{
    let p = priority_of(badge)->0 as int;
    lemma_shared(sacks, from, to);
    assert(item_of(p) == badge);
    assert forall|i: int| 0 <= i < KINDS implies #[trigger] shared(sacks, from, to)[i] == (i == p - 1) by {
        if i != p - 1 {
            assert(item_of(i + 1) != badge);
        }
    }
    lemma_priority_sum_of_one(shared(sacks, from, to), p, KINDS as nat);
}

/// Group `k` has a badge: the groups are three rucksacks in a row, and
/// what is left at the end.
pub open spec fn group_has_badge(sacks: Seq<Seq<char>>, k: int) -> bool {
    has_badge(
        sacks,
        3 * k,
        if 3 * k + 3 <= sacks.len() {
            3 * k + 3
        } else {
            sacks.len() as int
        },
    )
}

/// Every group of the text has a badge.
pub open spec fn groups_ok(s: Seq<char>) -> bool {
    forall|k: int| 0 <= k && 3 * k < entries_of(s).len() ==> #[trigger] group_has_badge(entries_of(s), k)
}

/// Sum of the priorities of the badges of the groups of `input`: three
/// rucksacks in a row are a group, and its badge is the kind of item that
/// all three hold.
pub fn star_two(input: &str) -> (r: u64)
    requires
        groups_ok(input@),
        entries_of(input@).len() * MOST <= u64::MAX,
    ensures
        r == groups_score(entries_of(input@), entries_of(input@).len()),
{
    let text = chars_of(input);
    let es = entries(text.as_slice());
    let ghost sacks = entries_of(input@);
    let mut total: u64 = 0;
    let mut start: usize = 0;
    while start < es.len()
        invariant
            start <= es@.len(),
            start % 3 == 0 || start == es@.len(),
            es@.len() == sacks.len(),
            forall|j: int| 0 <= j < es@.len() ==> (#[trigger] es@[j])@ == sacks[j],
            sacks.len() * MOST <= u64::MAX,
            total == groups_score(sacks, start as nat),
            total <= start * MOST,
        decreases es@.len() - start,
    {
        let end = if es.len() - start < 3 {
            es.len()
        } else {
            start + 3
        };
        let mut in_common = to_chars(es[start]);
        let mut k: usize = start + 1;
        while k < end
            invariant
                start < k <= end <= es@.len(),
                es@.len() == sacks.len(),
                forall|j: int| 0 <= j < es@.len() ==> (#[trigger] es@[j])@ == sacks[j],
                in_common@ == shared(sacks, start as int, k as int),
                in_common@.len() == KINDS,
            decreases end - k,
        {
            let next = to_chars(es[k]);
            in_common = intersection(&in_common, &next);
            k += 1;
        }
        proof {
            assert(start as int == (end - 1) / 3 * 3);
        }
        total = total + sum_priorities(&in_common);
        start = end;
    }
    total
}

} // verus!
