use itertools::EitherOrBoth;
use itertools::Itertools;
use vstd::prelude::*;

verus! {

/// The indices `from`, `from + 1`, up to `to - 1`.
pub open spec fn span(from: int, to: int) -> Seq<usize> {
    Seq::new((to - from) as nat, |i: int| (from + i) as usize)
}

/// The indices below `len` in runs of `size`: run `i` starts at
/// `i * size`, and only the last run may be shorter.
pub open spec fn runs_of(len: int, size: int) -> Seq<Seq<usize>> {
    Seq::new(
        ((len + size - 1) / size) as nat,
        |i: int|
            span(
                i * size,
                if (i + 1) * size <= len {
                    (i + 1) * size
                } else {
                    len
                },
            ),
    )
}

/// The indices below `len`, cut into runs of `size` by
/// `itertools::Itertools::chunks`. The contract states what the method's
/// documentation says: every chunk yields `size` elements, in order, and
/// the last is shorter where the elements run out. It is not proved.
#[verifier::external_body]
pub(crate) fn chunk_indices(len: usize, size: usize) -> (r: Vec<Vec<usize>>)
    requires
        size > 0,
    ensures
        r.deep_view() == runs_of(len as int, size as int),
{
    (0..len).chunks(size).into_iter().map(|chunk| chunk.collect()).collect()
}

/// The pairing of the indices below `n` with those below `m`: both while
/// both last, then the one that is left.
pub open spec fn paired(n: int, m: int) -> Seq<(Option<usize>, Option<usize>)> {
    Seq::new(
        (if n >= m {
            n
        } else {
            m
        }) as nat,
        |i: int|
            (
                if i < n {
                    Some(i as usize)
                } else {
                    None
                },
                if i < m {
                    Some(i as usize)
                } else {
                    None
                },
            ),
    )
}

/// The indices below `n` paired with the indices below `m` by
/// `itertools::Itertools::zip_longest`. The contract states what the
/// method's documentation says: pairs of both while neither side is
/// exhausted, then the rest of the longer side alone. It is not proved.
#[verifier::external_body]
pub(crate) fn zip_longest_indices(n: usize, m: usize) -> (r: Vec<(Option<usize>, Option<usize>)>)
    ensures
        r@ == paired(n as int, m as int),
{
    (0..n).zip_longest(0..m).map(
        |pair|
            match pair {
                EitherOrBoth::Both(l, r) => (Some(l), Some(r)),
                EitherOrBoth::Left(l) => (Some(l), None),
                EitherOrBoth::Right(r) => (None, Some(r)),
            },
    ).collect()
}

} // verus!
