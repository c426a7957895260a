use vstd::prelude::*;
use vstd::slice::slice_subrange;

verus! {

/// Collects the characters of `s` into a vector.
pub fn to_chars(s: &str) -> (v: Vec<char>)
    ensures
        v@ == s@,
{
    let mut v: Vec<char> = Vec::new();
    for c in it: s.chars()
        invariant
            it.seq() == s@,
            v@ == it.seq().take(it.index()),
    {
        v.push(c);
    }
    v
}

/// The characters that Unicode lists as white space.
pub open spec fn is_space(c: char) -> bool {
    let n = c as u32;
    ||| 0x09 <= n <= 0x0d
    ||| n == 0x20
    ||| n == 0x85
    ||| n == 0xa0
    ||| n == 0x1680
    ||| 0x2000 <= n <= 0x200a
    ||| n == 0x2028
    ||| n == 0x2029
    ||| n == 0x202f
    ||| n == 0x205f
    ||| n == 0x3000
}

/// Decides [`is_space`].
pub fn is_whitespace(c: char) -> (r: bool)
    ensures
        r == is_space(c),
{
    let n = c as u32;
    (0x09 <= n && n <= 0x0d) || n == 0x20 || n == 0x85 || n == 0xa0 || n == 0x1680 || (0x2000 <= n
        && n <= 0x200a) || n == 0x2028 || n == 0x2029 || n == 0x202f || n == 0x205f || n == 0x3000
}

/// `s` without the white space at its start.
pub open spec fn trimmed_start(s: Seq<char>) -> Seq<char>
    decreases s.len(),
{
    if s.len() > 0 && is_space(s[0]) {
        trimmed_start(s.drop_first())
    } else {
        s
    }
}

/// `s` without the white space at its end.
pub open spec fn trimmed_end(s: Seq<char>) -> Seq<char>
    decreases s.len(),
{
    if s.len() > 0 && is_space(s.last()) {
        trimmed_end(s.drop_last())
    } else {
        s
    }
}

/// `s` without the white space at either end.
pub open spec fn trimmed(s: Seq<char>) -> Seq<char> {
    trimmed_end(trimmed_start(s))
}

/// Cuts the white space off the start of `s`.
pub fn trim_start(s: &[char]) -> (r: &[char])
    ensures
        r@ == trimmed_start(s@),
{
    let mut i: usize = 0;
    assert(s@.skip(0) == s@);
    while i < s.len() && is_whitespace(s[i])
        invariant
            i <= s@.len(),
            trimmed_start(s@) == trimmed_start(s@.skip(i as int)),
        decreases s@.len() - i,
    {
        assert(s@.skip(i as int).drop_first() == s@.skip(i + 1));
        i += 1;
    }
    assert(s@.skip(i as int) == s@.subrange(i as int, s@.len() as int));
    slice_subrange(s, i, s.len())
}

/// Cuts the white space off the end of `s`.
pub fn trim_end(s: &[char]) -> (r: &[char])
    ensures
        r@ == trimmed_end(s@),
{
    let mut i: usize = s.len();
    assert(s@.take(s@.len() as int) == s@);
    while i > 0 && is_whitespace(s[i - 1])
        invariant
            i <= s@.len(),
            trimmed_end(s@) == trimmed_end(s@.take(i as int)),
        decreases i,
    {
        assert(s@.take(i as int).drop_last() == s@.take(i - 1));
        i -= 1;
    }
    assert(s@.take(i as int) == s@.subrange(0, i as int));
    slice_subrange(s, 0, i)
}

/// Cuts the white space off both ends of `s`.
pub fn trim(s: &[char]) -> (r: &[char])
    ensures
        r@ == trimmed(s@),
{
    trim_end(trim_start(s))
}

/// Where `s` without the white space at either end starts and ends.
pub fn trim_bounds(s: &[char]) -> (r: (usize, usize))
    ensures
        r.0 <= r.1 <= s@.len(),
        s@.subrange(r.0 as int, r.1 as int) == trimmed(s@),
{
    let mut lo: usize = 0;
    assert(s@.skip(0) == s@);
    while lo < s.len() && is_whitespace(s[lo])
        invariant
            lo <= s@.len(),
            trimmed_start(s@) == trimmed_start(s@.skip(lo as int)),
        decreases s@.len() - lo,
    {
        assert(s@.skip(lo as int).drop_first() == s@.skip(lo + 1));
        lo += 1;
    }
    let ghost rest = s@.skip(lo as int);
    let mut hi: usize = s.len();
    assert(rest.take(rest.len() as int) == rest);
    while hi > lo && is_whitespace(s[hi - 1])
        invariant
            lo <= hi <= s@.len(),
            rest == s@.skip(lo as int),
            trimmed_end(rest) == trimmed_end(rest.take(hi - lo)),
        decreases hi,
    {
        assert(rest.take(hi - lo).drop_last() == rest.take(hi - lo - 1));
        hi -= 1;
    }
    assert(rest.take(hi - lo) == s@.subrange(lo as int, hi as int));
    (lo, hi)
}

/// Index of the first `c` in `s`, or the length of `s` if there is none.
pub open spec fn first_index(s: Seq<char>, c: char) -> nat
    decreases s.len(),
{
    if s.len() == 0 || s[0] == c {
        0
    } else {
        1 + first_index(s.drop_first(), c)
    }
}

/// The first index is within the sequence or at its end, the character is
/// there, and not before.
pub proof fn lemma_first_index(s: Seq<char>, c: char)
    ensures
        0 <= first_index(s, c) <= s.len(),
        first_index(s, c) < s.len() ==> s[first_index(s, c) as int] == c,
        forall|i: int| 0 <= i < first_index(s, c) ==> s[i] != c,
    decreases s.len(),
{
    if s.len() > 0 && s[0] != c {
        let t = s.drop_first();
        lemma_first_index(t, c);
        assert forall|i: int| 0 <= i < first_index(s, c) implies s[i] != c by {
            if i > 0 {
                assert(s[i] == t[i - 1]);
            }
        }
    }
}

/// A position that holds `c` and has no `c` before it is the first index.
pub proof fn lemma_first_index_is(s: Seq<char>, c: char, k: int)
    requires
        0 <= k <= s.len(),
        k < s.len() ==> s[k] == c,
        forall|i: int| 0 <= i < k ==> s[i] != c,
    ensures
        first_index(s, c) == k,
{
    lemma_first_index(s, c);
    let f = first_index(s, c) as int;
    if f < k {
        assert(s[f] != c);
    } else if f > k {
        assert(s[k] != c);
    }
}

/// Finds the first `c` in `s` at or after `from`.
pub fn find_from(s: &[char], from: usize, c: char) -> (k: usize)
    requires
        from <= s@.len(),
    ensures
        k == from + first_index(s@.skip(from as int), c),
        from <= k <= s@.len(),
{
    let mut k: usize = from;
    while k < s.len() && s[k] != c
        invariant
            from <= k <= s@.len(),
            forall|i: int| from <= i < k ==> s@[i] != c,
        decreases s@.len() - k,
    {
        k += 1;
    }
    proof {
        lemma_first_index_is(s@.skip(from as int), c, k - from);
    }
    k
}

/// `s` without a carriage return at its end.
pub open spec fn without_cr(s: Seq<char>) -> Seq<char> {
    if s.len() > 0 && s.last() == '\r' {
        s.drop_last()
    } else {
        s
    }
}

/// The lines of `s`: the text between line feeds, each without the
/// carriage return that ends it. After the last line feed a line counts
/// only if it is not empty, and keeps a carriage return at its end.
pub open spec fn lines_of(s: Seq<char>) -> Seq<Seq<char>>
    decreases s.len(),
{
    let k = first_index(s, '\n');
    if s.len() == 0 {
        seq![]
    } else if k >= s.len() {
        seq![s]
    } else {
        seq![without_cr(s.take(k as int))] + lines_of(s.skip(k as int + 1))
    }
}

/// Splits `s` into its lines.
pub fn lines<'a>(s: &'a [char]) -> (r: Vec<&'a [char]>)
    ensures
        r@.len() == lines_of(s@).len(),
        forall|i: int| 0 <= i < r@.len() ==> (#[trigger] r@[i])@ == lines_of(s@)[i],
{
    let mut r: Vec<&'a [char]> = Vec::new();
    let mut pos: usize = 0;
    assert(s@.skip(0) == s@);
    while pos < s.len()
        invariant
            pos <= s@.len(),
            lines_of(s@).len() == r@.len() + lines_of(s@.skip(pos as int)).len(),
            forall|i: int| 0 <= i < r@.len() ==> (#[trigger] r@[i])@ == lines_of(s@)[i],
            forall|i: int|
                0 <= i < lines_of(s@.skip(pos as int)).len() ==> lines_of(s@)[r@.len() + i]
                    == #[trigger] lines_of(s@.skip(pos as int))[i],
        decreases s@.len() - pos,
    {
        let ghost rest = s@.skip(pos as int);
        let k = find_from(s, pos, '\n');
        proof {
            lemma_first_index(rest, '\n');
            assert(rest.take(k - pos) == s@.subrange(pos as int, k as int));
        }
        if k >= s.len() {
            assert(rest == s@.subrange(pos as int, s@.len() as int));
            assert(lines_of(rest) == seq![rest]);
            assert(lines_of(rest)[0] == rest);
            assert(lines_of(s@)[r@.len() as int] == rest);
            r.push(slice_subrange(s, pos, s.len()));
            assert(s@.skip(s@.len() as int).len() == 0);
            pos = s.len();
        } else {
            let end = if k > pos && s[k - 1] == '\r' {
                k - 1
            } else {
                k
            };
            proof {
                let line = rest.take(k - pos);
                assert(without_cr(line) == s@.subrange(pos as int, end as int)) by {
                    if k > pos {
                        assert(line.last() == s@[k - 1]);
                    }
                }
                assert(rest.skip(k - pos + 1) == s@.skip(k + 1));
                assert(lines_of(rest) == seq![without_cr(line)] + lines_of(s@.skip(k + 1)));
                assert forall|i: int| 0 <= i < lines_of(s@.skip(k + 1)).len() implies lines_of(s@)[r@.len()
                    + 1 + i] == #[trigger] lines_of(s@.skip(k + 1))[i] by {
                    assert(lines_of(rest)[i + 1] == lines_of(s@.skip(k + 1))[i]);
                }
                assert(lines_of(rest)[0] == without_cr(line));
                assert(lines_of(s@)[r@.len() as int] == lines_of(rest)[0]);
            }
            r.push(slice_subrange(s, pos, end));
            pos = k + 1;
        }
    }
    proof {
        assert(s@.skip(pos as int).len() == 0);
    }
    r
}

/// The lines of `ls` that hold more than white space, each trimmed.
pub open spec fn filled_of(ls: Seq<Seq<char>>) -> Seq<Seq<char>>
    decreases ls.len(),
{
    if ls.len() == 0 {
        seq![]
    } else if trimmed(ls.last()).len() == 0 {
        filled_of(ls.drop_last())
    } else {
        filled_of(ls.drop_last()).push(trimmed(ls.last()))
    }
}

/// The entries of a text: its lines that hold more than white space, each
/// without the white space at its ends.
pub open spec fn entries_of(s: Seq<char>) -> Seq<Seq<char>> {
    filled_of(lines_of(s))
}

/// Splits `s` into its entries.
pub fn entries<'a>(s: &'a [char]) -> (r: Vec<&'a [char]>)
    ensures
        r@.len() == entries_of(s@).len(),
        forall|i: int| 0 <= i < r@.len() ==> (#[trigger] r@[i])@ == entries_of(s@)[i],
{
    let ls = lines(s);
    let ghost all = lines_of(s@);
    let mut r: Vec<&'a [char]> = Vec::new();
    let mut i: usize = 0;
    assert(all.take(0).len() == 0);
    while i < ls.len()
        invariant
            i <= ls@.len(),
            ls@.len() == all.len(),
            forall|j: int| 0 <= j < ls@.len() ==> (#[trigger] ls@[j])@ == all[j],
            r@.len() == filled_of(all.take(i as int)).len(),
            forall|j: int| 0 <= j < r@.len() ==> (#[trigger] r@[j])@ == filled_of(all.take(i as int))[j],
        decreases ls@.len() - i,
    {
        let line = trim(ls[i]);
        proof {
            assert(all.take(i + 1).drop_last() == all.take(i as int));
            assert(all.take(i + 1).last() == ls@[i as int]@);
        }
        if line.len() > 0 {
            r.push(line);
        }
        i += 1;
    }
    assert(all.take(i as int) == all);
    r
}

/// Index of the first white space in `s`, or the length of `s` if there
/// is none.
pub open spec fn first_space(s: Seq<char>) -> nat
    decreases s.len(),
{
    if s.len() == 0 || is_space(s[0]) {
        0
    } else {
        1 + first_space(s.drop_first())
    }
}

/// The first white space is where the characters before it are none.
pub proof fn lemma_first_space_is(s: Seq<char>, k: int)
    requires
        0 <= k <= s.len(),
        k < s.len() ==> is_space(s[k]),
        forall|i: int| 0 <= i < k ==> !is_space(#[trigger] s[i]),
    ensures
        first_space(s) == k,
    decreases s.len(),
{
    if k > 0 {
        let t = s.drop_first();
        assert(!is_space(s[0]));
        assert forall|i: int| 0 <= i < k - 1 implies !is_space(#[trigger] t[i]) by {
            assert(t[i] == s[i + 1]);
        }
        lemma_first_space_is(t, k - 1);
    }
}

/// Cutting white space off the start never lengthens a text.
pub proof fn lemma_trimmed_start(s: Seq<char>)
    ensures
        trimmed_start(s).len() <= s.len(),
        trimmed_start(s).len() > 0 ==> !is_space(trimmed_start(s)[0]),
        trimmed_start(s) == s.skip(s.len() - trimmed_start(s).len()),
    decreases s.len(),
{
    if s.len() > 0 && is_space(s[0]) {
        let t = s.drop_first();
        lemma_trimmed_start(t);
        assert(t.skip(t.len() - trimmed_start(t).len()) == s.skip(s.len() - trimmed_start(s).len()));
    } else {
        assert(s.skip(0) == s);
    }
}

/// The words of `s`: the runs of characters between white space.
pub open spec fn words_of(s: Seq<char>) -> Seq<Seq<char>>
    decreases s.len(),
    via words_of_decreases
{
    let t = trimmed_start(s);
    let k = first_space(t) as int;
    if t.len() == 0 {
        seq![]
    } else {
        seq![t.take(k)] + words_of(t.skip(k))
    }
}

#[via_fn]
proof fn words_of_decreases(s: Seq<char>) {
    let t = trimmed_start(s);
    lemma_trimmed_start(s);
    if t.len() > 0 {
        lemma_first_space_pos(t);
    }
}

/// Before the first white space of a text that starts with none lies at
/// least one character.
pub proof fn lemma_first_space_pos(t: Seq<char>)
    requires
        t.len() > 0,
        !is_space(t[0]),
    ensures
        0 < first_space(t) <= t.len(),
    decreases t.len(),
{
    lemma_first_space_bound(t.drop_first());
}

/// The first white space lies within the text or at its end.
pub proof fn lemma_first_space_bound(t: Seq<char>)
    ensures
        first_space(t) <= t.len(),
    decreases t.len(),
{
    if t.len() > 0 && !is_space(t[0]) {
        lemma_first_space_bound(t.drop_first());
    }
}

/// Splits `s` into its words.
pub fn words<'a>(s: &'a [char]) -> (r: Vec<&'a [char]>)
    ensures
        r@.len() == words_of(s@).len(),
        forall|i: int| 0 <= i < r@.len() ==> (#[trigger] r@[i])@ == words_of(s@)[i],
{
    let mut r: Vec<&'a [char]> = Vec::new();
    let mut pos: usize = 0;
    assert(s@.skip(0) == s@);
    loop
        invariant_except_break
            pos <= s@.len(),
            words_of(s@).len() == r@.len() + words_of(s@.skip(pos as int)).len(),
            forall|i: int| 0 <= i < r@.len() ==> (#[trigger] r@[i])@ == words_of(s@)[i],
            forall|i: int|
                0 <= i < words_of(s@.skip(pos as int)).len() ==> words_of(s@)[r@.len() + i]
                    == #[trigger] words_of(s@.skip(pos as int))[i],
        ensures
            r@.len() == words_of(s@).len(),
            forall|i: int| 0 <= i < r@.len() ==> (#[trigger] r@[i])@ == words_of(s@)[i],
        decreases s@.len() - pos,
    {
        let ghost rest = s@.skip(pos as int);
        let mut lo: usize = pos;
        while lo < s.len() && is_whitespace(s[lo])
            invariant
                pos <= lo <= s@.len(),
                trimmed_start(s@.skip(pos as int)) == trimmed_start(s@.skip(lo as int)),
            decreases s@.len() - lo,
        {
            assert(s@.skip(lo as int).drop_first() == s@.skip(lo + 1));
            lo += 1;
        }
        let ghost t = s@.skip(lo as int);
        assert(trimmed_start(rest) == t);
        if lo >= s.len() {
            assert(words_of(rest).len() == 0);
            break ;
        }
        let mut hi: usize = lo;
        while hi < s.len() && !is_whitespace(s[hi])
            invariant
                lo <= hi <= s@.len(),
                forall|i: int| lo <= i < hi ==> !is_space(#[trigger] s@[i]),
            decreases s@.len() - hi,
        {
            hi += 1;
        }
        proof {
            assert forall|i: int| 0 <= i < hi - lo implies !is_space(#[trigger] t[i]) by {
                assert(t[i] == s@[lo + i]);
            }
            lemma_first_space_is(t, hi - lo);
            assert(t.take(hi - lo) == s@.subrange(lo as int, hi as int));
            assert(t.skip(hi - lo) == s@.skip(hi as int));
            let tail = words_of(s@.skip(hi as int));
            assert(words_of(rest) == seq![t.take(hi - lo)] + tail);
            assert(words_of(rest)[0] == t.take(hi - lo));
            assert(words_of(s@)[r@.len() as int] == words_of(rest)[0]);
            assert forall|i: int| 0 <= i < tail.len() implies words_of(s@)[r@.len() + 1 + i]
                == #[trigger] tail[i] by {
                assert(words_of(rest)[i + 1] == tail[i]);
            }
        }
        r.push(slice_subrange(s, lo, hi));
        pos = hi;
    }
    r
}

/// The part of `s` before its first `c`; all of `s` if it holds no `c`.
pub open spec fn first_field(s: Seq<char>, c: char) -> Seq<char> {
    s.take(first_index(s, c) as int)
}

/// The part of `s` between its first `c` and its second, or its end; none
/// if `s` holds no `c`.
pub open spec fn second_field(s: Seq<char>, c: char) -> Option<Seq<char>> {
    let k = first_index(s, c) as int;
    if k >= s.len() {
        None
    } else {
        Some(first_field(s.skip(k + 1), c))
    }
}

/// Splits `s` at its first two `c` and returns what lies before the first
/// and between the two; nothing if `s` holds no `c`.
pub fn split_pair<'a>(s: &'a [char], c: char) -> (r: Option<(&'a [char], &'a [char])>)
    ensures
        r is Some <==> second_field(s@, c) is Some,
        r matches Some(p) ==> p.0@ == first_field(s@, c) && Some(p.1@) == second_field(s@, c),
{
    assert(s@.skip(0) == s@);
    let k = find_from(s, 0, c);
    if k >= s.len() {
        return None;
    }
    let k2 = find_from(s, k + 1, c);
    proof {
        assert(s@.take(k as int) == s@.subrange(0, k as int));
        assert(s@.skip(k + 1).take(k2 - k - 1) == s@.subrange(k + 1, k2 as int));
    }
    Some((slice_subrange(s, 0, k), slice_subrange(s, k + 1, k2)))
}

/// What follows the first white space of `s`, and what precedes it; none
/// if `s` holds no white space.
pub open spec fn around_space(s: Seq<char>) -> Option<(Seq<char>, Seq<char>)> {
    let k = first_space(s) as int;
    if k >= s.len() {
        None
    } else {
        Some((s.take(k), s.skip(k + 1)))
    }
}

/// Splits `s` at its first white space.
pub fn split_at_space<'a>(s: &'a [char]) -> (r: Option<(&'a [char], &'a [char])>)
    ensures
        r is Some <==> around_space(s@) is Some,
        r matches Some(p) ==> around_space(s@) == Some((p.0@, p.1@)),
{
    let mut k: usize = 0;
    while k < s.len() && !is_whitespace(s[k])
        invariant
            k <= s@.len(),
            forall|i: int| 0 <= i < k ==> !is_space(#[trigger] s@[i]),
        decreases s@.len() - k,
    {
        k += 1;
    }
    proof {
        lemma_first_space_is(s@, k as int);
    }
    if k >= s.len() {
        return None;
    }
    assert(s@.take(k as int) == s@.subrange(0, k as int));
    assert(s@.skip(k + 1) == s@.subrange(k + 1, s@.len() as int));
    Some((slice_subrange(s, 0, k), slice_subrange(s, k + 1, s.len())))
}

/// What follows `word` at the start of `s`; none if `s` does not start
/// with `word`.
pub open spec fn after_prefix(s: Seq<char>, word: Seq<char>) -> Option<Seq<char>> {
    if word.len() <= s.len() && s.take(word.len() as int) == word {
        Some(s.skip(word.len() as int))
    } else {
        None
    }
}

/// Cuts `word` off the start of `s`.
pub fn strip_prefix<'a>(s: &'a [char], word: &str) -> (r: Option<&'a [char]>)
    ensures
        r is Some <==> after_prefix(s@, word@) is Some,
        r matches Some(rest) ==> after_prefix(s@, word@) == Some(rest@),
{
    let w = to_chars(word);
    if w.len() > s.len() {
        return None;
    }
    let mut i: usize = 0;
    while i < w.len()
        invariant
            i <= w@.len(),
            w@ == word@,
            w@.len() <= s@.len(),
            forall|j: int| 0 <= j < i ==> s@[j] == w@[j],
        decreases w@.len() - i,
    {
        if s[i] != w[i] {
            assert(s@.take(w@.len() as int)[i as int] != w@[i as int]);
            return None;
        }
        i += 1;
    }
    assert(s@.take(w@.len() as int) =~= w@);
    assert(s@.skip(w@.len() as int) == s@.subrange(w@.len() as int, s@.len() as int));
    Some(slice_subrange(s, w.len(), s.len()))
}

/// The number that `s` writes, if it fits the machine's word.
pub open spec fn size_of(s: Seq<char>) -> Option<usize> {
    match number_of(s) {
        Some(v) => if v <= usize::MAX {
            Some(v as usize)
        } else {
            None
        },
        None => None,
    }
}

/// Reads a number that fits the machine's word.
pub fn parse_usize(s: &[char]) -> (r: Option<usize>)
    ensures
        r == size_of(s@),
{
    match parse_u64(s) {
        Some(v) => {
            if v <= usize::MAX as u64 {
                Some(v as usize)
            } else {
                None
            }
        },
        None => None,
    }
}

/// Index at which `a` directly followed by `b` first occurs in `s`, or
/// the length of `s` if it does not occur.
pub open spec fn first_pair(s: Seq<char>, a: char, b: char) -> nat
    decreases s.len(),
{
    if s.len() < 2 {
        s.len()
    } else if s[0] == a && s[1] == b {
        0
    } else {
        1 + first_pair(s.drop_first(), a, b)
    }
}

/// The first pair is where the two characters meet, and is the first such
/// place.
pub proof fn lemma_first_pair_is(s: Seq<char>, a: char, b: char, k: int)
    requires
        0 <= k <= s.len(),
        k < s.len() ==> k + 1 < s.len() && s[k] == a && s[k + 1] == b,
        forall|i: int| 0 <= i < k && i + 1 < s.len() ==> !(s[i] == a && #[trigger] s[i + 1] == b),
    ensures
        first_pair(s, a, b) == k,
    decreases s.len(),
{
    if s.len() >= 2 && k > 0 {
        assert(!(s[0] == a && s[0int + 1] == b));
        let t = s.drop_first();
        assert forall|i: int| 0 <= i < k - 1 && i + 1 < t.len() implies !(t[i] == a && #[trigger] t[i + 1]
            == b) by {
            assert(t[i] == s[i + 1]);
            assert(t[i + 1] == s[i + 1 + 1]);
        }
        if k < s.len() {
            assert(t[k - 1] == s[k]);
            assert(t[k] == s[k + 1]);
        }
        lemma_first_pair_is(t, a, b, k - 1);
    }
}

/// The parts of `s` between the occurrences of `a` directly followed by
/// `b`, read from the left.
pub open spec fn parts_of(s: Seq<char>, a: char, b: char) -> Seq<Seq<char>>
    decreases s.len(),
{
    let k = first_pair(s, a, b);
    if k + 2 > s.len() {
        seq![s]
    } else {
        seq![s.take(k as int)] + parts_of(s.skip(k as int + 2), a, b)
    }
}

/// Splits `s` at the occurrences of `a` directly followed by `b`.
pub fn split_by_pair<'a>(s: &'a [char], a: char, b: char) -> (r: Vec<&'a [char]>)
    ensures
        r@.len() == parts_of(s@, a, b).len(),
        r@.len() > 0,
        forall|i: int| 0 <= i < r@.len() ==> (#[trigger] r@[i])@ == parts_of(s@, a, b)[i],
{
    let ghost all = parts_of(s@, a, b);
    let mut r: Vec<&'a [char]> = Vec::new();
    let mut pos: usize = 0;
    assert(s@.skip(0) == s@);
    loop
        invariant_except_break
            pos <= s@.len(),
            all == parts_of(s@, a, b),
            all.len() == r@.len() + parts_of(s@.skip(pos as int), a, b).len(),
            forall|i: int| 0 <= i < r@.len() ==> (#[trigger] r@[i])@ == all[i],
            forall|i: int|
                0 <= i < parts_of(s@.skip(pos as int), a, b).len() ==> all[r@.len() + i]
                    == #[trigger] parts_of(s@.skip(pos as int), a, b)[i],
        ensures
            all == parts_of(s@, a, b),
            r@.len() == all.len(),
            r@.len() > 0,
            forall|i: int| 0 <= i < r@.len() ==> (#[trigger] r@[i])@ == all[i],
        decreases s@.len() - pos,
    {
        let ghost rest = s@.skip(pos as int);
        let mut k: usize = pos;
        while k < s.len() && !(k + 1 < s.len() && s[k] == a && s[k + 1] == b)
            invariant
                pos <= k <= s@.len(),
                forall|i: int|
                    pos <= i < k && i + 1 < s@.len() ==> !(s@[i] == a && #[trigger] s@[i + 1] == b),
            decreases s@.len() - k,
        {
            k += 1;
        }
        proof {
            assert forall|i: int| 0 <= i < k - pos && i + 1 < rest.len() implies !(rest[i] == a
                && #[trigger] rest[i + 1] == b) by {
                assert(rest[i] == s@[pos + i]);
                assert(rest[i + 1] == s@[pos + i + 1]);
            }
            lemma_first_pair_is(rest, a, b, k - pos);
            assert(rest.take(k - pos) == s@.subrange(pos as int, k as int));
            assert(parts_of(rest, a, b)[0] == rest.take(k - pos));
            assert(all[r@.len() as int] == parts_of(rest, a, b)[0]);
        }
        r.push(slice_subrange(s, pos, k));
        if k >= s.len() {
            break ;
        }
        proof {
            assert(rest.skip(k - pos + 2) == s@.skip(k + 2));
            let tail = parts_of(s@.skip(k + 2), a, b);
            assert(parts_of(rest, a, b) == seq![rest.take(k - pos)] + tail);
            assert forall|i: int| 0 <= i < tail.len() implies all[r@.len() + i] == #[trigger] tail[i] by {
                assert(parts_of(rest, a, b)[i + 1] == tail[i]);
            }
        }
        pos = k + 2;
    }
    r
}

/// What precedes the first `c` of `s`, and what follows it; none if `s`
/// holds no `c`.
pub open spec fn around(s: Seq<char>, c: char) -> Option<(Seq<char>, Seq<char>)> {
    let k = first_index(s, c) as int;
    if k >= s.len() {
        None
    } else {
        Some((s.take(k), s.skip(k + 1)))
    }
}

/// Splits `s` at its first `c`.
pub fn split_once<'a>(s: &'a [char], c: char) -> (r: Option<(&'a [char], &'a [char])>)
    ensures
        r is Some <==> around(s@, c) is Some,
        r matches Some(p) ==> around(s@, c) == Some((p.0@, p.1@)),
{
    assert(s@.skip(0) == s@);
    let k = find_from(s, 0, c);
    if k >= s.len() {
        return None;
    }
    assert(s@.take(k as int) == s@.subrange(0, k as int));
    assert(s@.skip(k + 1) == s@.subrange(k + 1, s@.len() as int));
    Some((slice_subrange(s, 0, k), slice_subrange(s, k + 1, s.len())))
}

/// A decimal digit.
pub open spec fn is_digit(c: char) -> bool {
    '0' <= c <= '9'
}

/// Every character of `s` is a decimal digit.
pub open spec fn all_digits(s: Seq<char>) -> bool {
    forall|i: int| 0 <= i < s.len() ==> is_digit(#[trigger] s[i])
}

/// The number that the digits `s` write in base ten.
pub open spec fn digits_value(s: Seq<char>) -> nat
    decreases s.len(),
{
    if s.len() == 0 {
        0
    } else {
        digits_value(s.drop_last()) * 10 + (s.last() as u32 - 48) as nat
    }
}

/// `s` without a plus sign at its start.
pub open spec fn unsigned_part(s: Seq<char>) -> Seq<char> {
    if s.len() > 0 && s[0] == '+' {
        s.drop_first()
    } else {
        s
    }
}

/// The number that the digits `s` write, if there is a digit, there is
/// nothing else, and the number fits 64 bits.
pub open spec fn digits_number(t: Seq<char>) -> Option<u64> {
    if t.len() > 0 && all_digits(t) && digits_value(t) <= u64::MAX {
        Some(digits_value(t) as u64)
    } else {
        None
    }
}

/// The number that `s` writes: an optional plus sign, then one or more
/// decimal digits whose value fits 64 bits.
pub open spec fn number_of(s: Seq<char>) -> Option<u64> {
    digits_number(unsigned_part(s))
}

/// The integer that `s` writes: an optional sign, then one or more
/// decimal digits; the integer fits 64 bits.
pub open spec fn integer_of(s: Seq<char>) -> Option<i64> {
    if s.len() > 0 && s[0] == '-' {
        match digits_number(s.drop_first()) {
            Some(v) => if v <= 0x8000_0000_0000_0000 {
                Some((-(v as int)) as i64)
            } else {
                None
            },
            None => None,
        }
    } else {
        match number_of(s) {
            Some(v) => if v <= i64::MAX {
                Some(v as i64)
            } else {
                None
            },
            None => None,
        }
    }
}

/// The value of digits does not fall when more digits follow.
pub proof fn lemma_digits_value_grows(s: Seq<char>, k: int)
    requires
        0 <= k <= s.len(),
        all_digits(s),
    ensures
        digits_value(s.take(k)) <= digits_value(s),
    decreases s.len() - k,
{
    if k < s.len() {
        lemma_digits_value_grows(s, k + 1);
        assert(s.take(k + 1).drop_last() == s.take(k));
        assert(is_digit(s[k]));
    } else {
        assert(s.take(k) == s);
    }
}

/// Reads a number written in decimal digits and nothing else.
pub fn parse_digits(t: &[char]) -> (r: Option<u64>)
    ensures
        r == digits_number(t@),
{
    if t.len() == 0 {
        return None;
    }
    let mut value: u64 = 0;
    let mut i: usize = 0;
    assert(t@.take(0).len() == 0);
    while i < t.len()
        invariant
            i <= t@.len(),
            all_digits(t@.take(i as int)),
            value == digits_value(t@.take(i as int)),
        decreases t@.len() - i,
    {
        let c = t[i];
        if !('0' <= c && c <= '9') {
            assert(!is_digit(t@[i as int]));
            return None;
        }
        let digit = (c as u32 - 48) as u64;
        proof {
            assert(t@.take(i + 1).drop_last() == t@.take(i as int));
            assert(t@.take(i + 1).last() == c);
            assert forall|j: int| 0 <= j < i + 1 implies is_digit(#[trigger] t@.take(i + 1)[j]) by {
                if j < i {
                    assert(t@.take(i as int)[j] == t@[j]);
                }
            }
        }
        let next = match value.checked_mul(10) {
            Some(v) => v.checked_add(digit),
            None => None,
        };
        match next {
            Some(v) => {
                value = v;
            },
            None => {
                proof {
                    if all_digits(t@) {
                        lemma_digits_value_grows(t@, i + 1);
                    }
                }
                return None;
            },
        }
        i += 1;
    }
    assert(t@.take(i as int) == t@);
    Some(value)
}

/// Reads a number: an optional plus sign, then decimal digits.
pub fn parse_u64(s: &[char]) -> (r: Option<u64>)
    ensures
        r == number_of(s@),
{
    if s.len() > 0 && s[0] == '+' {
        assert(s@.drop_first() == s@.subrange(1, s@.len() as int));
        parse_digits(slice_subrange(s, 1, s.len()))
    } else {
        parse_digits(s)
    }
}

/// Reads an integer: an optional sign, then decimal digits.
pub fn parse_i64(s: &[char]) -> (r: Option<i64>)
    ensures
        r == integer_of(s@),
{
    if s.len() > 0 && s[0] == '-' {
        assert(s@.drop_first() == s@.subrange(1, s@.len() as int));
        match parse_digits(slice_subrange(s, 1, s.len())) {
            Some(v) => {
                if v < 0x8000_0000_0000_0000 {
                    Some(-(v as i64))
                } else if v == 0x8000_0000_0000_0000 {
                    Some(i64::MIN)
                } else {
                    None
                }
            },
            None => None,
        }
    } else {
        match parse_u64(s) {
            Some(v) => {
                if v <= i64::MAX as u64 {
                    Some(v as i64)
                } else {
                    None
                }
            },
            None => None,
        }
    }
}

/// A string of the characters `chars`, made by collecting them with
/// `String::from_iter`, which the standard library documents as the string
/// of the characters in order. It is not proved.
#[verifier::external_body]
pub(crate) fn string_of(chars: &Vec<char>) -> (s: String)
    ensures
        s@ == chars@,
{
    chars.iter().collect()
}

} // verus!
