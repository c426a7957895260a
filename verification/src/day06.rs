use crate::text::{to_chars, trim_bounds, trimmed};
use vstd::prelude::*;
use vstd::slice::slice_subrange;
use vstd::std_specs::cmp::PartialEqSpec;
use vstd::string::{StrSliceExecFns, StringSliceAdditionalSpecFns};
use vstd::utf8::encode_utf8;

verus! {

/// No two of the values are equal.
pub open spec fn distinct<T: PartialEq>(values: Seq<T>) -> bool {
    forall|i: int, j: int| 0 <= i < j < values.len() ==> !(#[trigger] values[i].eq_spec(&values[j]))
}

/// Whether no value occurs twice.
pub fn all_different<T: Eq>(values: &[T]) -> (r: bool)
    ensures
        T::obeys_eq_spec() ==> r == distinct(values@),
{
    let mut i: usize = 0;
    while i < values.len()
        invariant
            i <= values@.len(),
            T::obeys_eq_spec() ==> forall|a: int, b: int|
                0 <= a < i && a < b < values@.len() ==> !(#[trigger] values@[a].eq_spec(&values@[b])),
        decreases values@.len() - i,
    {
        let mut j: usize = i + 1;
        while j < values.len()
            invariant
                i < j <= values@.len(),
                T::obeys_eq_spec() ==> forall|b: int|
                    i < b < j ==> !(#[trigger] values@[i as int].eq_spec(&values@[b])),
            decreases values@.len() - j,
        {
            if values[i] == values[j] {
                return false;
            }
            j += 1;
        }
        i += 1;
    }
    true
}

/// The signal in a text: the bytes that write the text without the white
/// space at either end.
pub open spec fn signal_of(text: Seq<char>) -> Seq<u8> {
    encode_utf8(trimmed(text))
}

/// The bytes of the signal in `input`.
pub fn signal(input: &str) -> (r: &[u8])
    ensures
        r@ == signal_of(input@),
{
    let chars = to_chars(input);
    let (lo, hi) = trim_bounds(chars.as_slice());
    input.substring_char(lo, hi).as_bytes()
}

/// The `n` values of `s` that start at index `i` differ from one another.
pub open spec fn is_marker(s: Seq<u8>, n: int, i: int) -> bool {
    0 <= i && i + n <= s.len() && distinct(s.subrange(i, i + n))
}

/// The first run of `n` differing values in `s` starts at index `i`.
pub open spec fn is_first_marker(s: Seq<u8>, n: int, i: int) -> bool {
    is_marker(s, n, i) && forall|j: int| 0 <= j < i ==> !is_marker(s, n, j)
}

/// Start of the first run of `n` values of `data` that differ from one
/// another, if there is such a run.
pub fn find_marker(data: &[u8], n: usize) -> (r: Option<usize>)
    ensures
        r matches Some(i) ==> is_first_marker(data@, n as int, i as int) && i + n <= usize::MAX,
        r is None ==> forall|j: int| !is_marker(data@, n as int, j),
{
    if n > data.len() {
        return None;
    }
    let last = data.len() - n;
    let mut i: usize = 0;
    while i <= last
        invariant
            last == data@.len() - n,
            data@.len() <= usize::MAX,
            i <= last + 1,
            forall|j: int| 0 <= j < i ==> !is_marker(data@, n as int, j),
        decreases last + 1 - i,
    {
        if all_different(slice_subrange(data, i, i + n)) {
            return Some(i);
        }
        i += 1;
    }
    None
}

/// Number of bytes of the signal in `input` up to the end of its first
/// run of four differing bytes.
pub fn star_one(input: &str) -> (r: usize)
    requires
        exists|i: int| is_marker(signal_of(input@), 4, i),
    ensures
        is_first_marker(signal_of(input@), 4, r - 4),
{
    match find_marker(signal(input), 4) {
        Some(i) => i + 4,
        None => vstd::pervasive::unreached(),
    }
}

/// Number of bytes of the signal in `input` up to the end of its first
/// run of fourteen differing bytes.
pub fn star_two(input: &str) -> (r: usize)
    requires
        exists|i: int| is_marker(signal_of(input@), 14, i),
    ensures
        is_first_marker(signal_of(input@), 14, r - 14),
{
    match find_marker(signal(input), 14) {
        Some(i) => i + 14,
        None => vstd::pervasive::unreached(),
    }
}

} // verus!
