use crate::iters::{chunk_indices, paired, runs_of, span, zip_longest_indices};
use crate::text::{
    around, split_once, all_digits, digits_number, entries, entries_of, first_index, is_digit, parse_digits, to_chars, trim_start,
    trimmed_start,
};
use std::ops::ControlFlow;
use vstd::prelude::*;
use vstd::slice::slice_subrange;
use vstd::string::StrSliceExecFns;

verus! {

/// A packet, as far as its meaning goes: an integer or a list of packets.
pub enum Packet {
    Integer(u64),
    List(Seq<Packet>),
}

/// A packet.
#[derive(Debug)]
pub enum Item {
    Integer(u64),
    List(Vec<Item>),
}

/// Two packets to be compared.
#[derive(Debug)]
pub struct Pair {
    pub first: Item,
    pub second: Item,
}

/// What a packet means.
pub open spec fn model(item: Item) -> Packet
    decreases item,
{
    match item {
        Item::Integer(v) => Packet::Integer(v),
        Item::List(v) => Packet::List(models(v@)),
    }
}

/// What each of the packets means.
pub open spec fn models(items: Seq<Item>) -> Seq<Packet>
    decreases items,
{
    if items.len() == 0 {
        seq![]
    } else {
        models(items.drop_last()).push(model(items.last()))
    }
}

/// The meanings of packets are as many as the packets, each that of the
/// packet at its index.
pub proof fn lemma_models(items: Seq<Item>)
    ensures
        models(items).len() == items.len(),
        forall|i: int| 0 <= i < items.len() ==> #[trigger] models(items)[i] == model(items[i]),
    decreases items.len(),
{
    if items.len() > 0 {
        lemma_models(items.drop_last());
        assert forall|i: int| 0 <= i < items.len() implies #[trigger] models(items)[i] == model(items[i]) by {
            if i < items.len() - 1 {
                assert(items.drop_last()[i] == items[i]);
            }
        }
    }
}

/// The meanings of packets with one more packet at the end.
pub proof fn lemma_models_push(items: Seq<Item>, item: Item)
    ensures
        models(items.push(item)) == models(items).push(model(item)),
{
    assert(items.push(item).drop_last() == items);
}

/// How `a` stands to `b`: before it (`Some(true)`), after it
/// (`Some(false)`), or neither. Integers compare by value; lists compare
/// packet by packet, and the one that ends first comes first; an integer
/// against a list counts as the list of that one integer.
pub open spec fn compare(a: Packet, b: Packet) -> Option<bool>
    decreases a, b, 1nat, 0nat,
    via compare_decreases
{
    match (a, b) {
        (Packet::Integer(x), Packet::Integer(y)) => if x == y {
            None
        } else {
            Some(x < y)
        },
        (Packet::List(l), Packet::List(r)) => compare_from(l, r, 0),
        (Packet::List(l), Packet::Integer(_)) => if l.len() == 0 {
            Some(true)
        } else {
            match compare(l[0], b) {
                Some(v) => Some(v),
                None => if l.len() > 1 {
                    Some(false)
                } else {
                    None
                },
            }
        },
        (Packet::Integer(_), Packet::List(r)) => if r.len() == 0 {
            Some(false)
        } else {
            match compare(a, r[0]) {
                Some(v) => Some(v),
                None => if r.len() > 1 {
                    Some(true)
                } else {
                    None
                },
            }
        },
    }
}

/// How the lists `l` and `r` stand to each other from index `i` on.
pub open spec fn compare_from(l: Seq<Packet>, r: Seq<Packet>, i: int) -> Option<bool>
    decreases Packet::List(l), Packet::List(r), 0nat, l.len() - i,
    via compare_from_decreases
{
    if i < 0 || (i >= l.len() && i >= r.len()) {
        None
    } else if i >= l.len() {
        Some(true)
    } else if i >= r.len() {
        Some(false)
    } else {
        match compare(l[i], r[i]) {
            Some(v) => Some(v),
            None => compare_from(l, r, i + 1),
        }
    }
}

#[via_fn]
proof fn compare_decreases(a: Packet, b: Packet) {
    match (a, b) {
        (Packet::List(l), Packet::Integer(_)) => {
            if l.len() > 0 {
                assert(decreases_to!(l => l[0]));
            }
        },
        (Packet::Integer(_), Packet::List(r)) => {
            if r.len() > 0 {
                assert(decreases_to!(r => r[0]));
            }
        },
        _ => {},
    }
}

#[via_fn]
proof fn compare_from_decreases(l: Seq<Packet>, r: Seq<Packet>, i: int) {
    if 0 <= i < l.len() && i < r.len() {
        let a = Packet::List(l);
        assert(decreases_to!(a => a->List_0));
        assert(decreases_to!(l => l[i]));
    }
}

/// Whether `a` is in order before `b`: it does not come after it.
pub open spec fn ordered(a: Packet, b: Packet) -> bool {
    compare(a, b) != Some(false)
}

/// The decision of a comparison, as a flow of control: a decision breaks
/// off, no decision lets the comparison go on.
pub open spec fn flow_of(c: Option<bool>) -> ControlFlow<bool, ()> {
    match c {
        Some(v) => ControlFlow::Break(v),
        None => ControlFlow::Continue(()),
    }
}

/// The value that a flow of control broke off with.
pub fn break_value<B, C>(c: ControlFlow<B, C>) -> (r: Option<B>)
    ensures
        r == match c {
            ControlFlow::Break(v) => Some(v),
            ControlFlow::Continue(_) => None,
        },
{
    match c {
        ControlFlow::Break(v) => Some(v),
        ControlFlow::Continue(_) => None,
    }
}

/// Compares two packets.
pub fn in_order_recurse(left: &Item, right: &Item) -> (r: ControlFlow<bool, ()>)
    ensures
        r == flow_of(compare(model(*left), model(*right))),
    decreases left, right,
{
    match (left, right) {
        (Item::Integer(l), Item::Integer(r)) => {
            if *l == *r {
                ControlFlow::Continue(())
            } else {
                ControlFlow::Break(*l < *r)
            }
        },
        (Item::List(l), Item::List(r)) => {
            let ghost ml = models(l@);
            let ghost mr = models(r@);
            proof {
                lemma_models(l@);
                lemma_models(r@);
            }
            let pairs = zip_longest_indices(l.len(), r.len());
            let mut k: usize = 0;
            while k < pairs.len()
                invariant
                    k <= pairs@.len(),
                    pairs@ == paired(l@.len() as int, r@.len() as int),
                    ml == models(l@),
                    mr == models(r@),
                    ml.len() == l@.len(),
                    mr.len() == r@.len(),
                    forall|i: int| 0 <= i < l@.len() ==> #[trigger] ml[i] == model(l@[i]),
                    forall|i: int| 0 <= i < r@.len() ==> #[trigger] mr[i] == model(r@[i]),
                    compare_from(ml, mr, 0) == compare_from(ml, mr, k as int),
                    *left == Item::List(*l),
                    *right == Item::List(*r),
                decreases pairs@.len() - k,
            {
                match pairs[k] {
                    (Some(i), Some(j)) => {
                        match break_value(in_order_recurse(&l[i], &r[j])) {
                            Some(v) => {
                                return ControlFlow::Break(v);
                            },
                            None => {},
                        }
                    },
                    (Some(_), None) => {
                        return ControlFlow::Break(false);
                    },
                    (None, Some(_)) => {
                        return ControlFlow::Break(true);
                    },
                    (None, None) => {},
                }
                k += 1;
            }
            ControlFlow::Continue(())
        },
        (Item::List(l), Item::Integer(_)) => {
            proof {
                lemma_models(l@);
            }
            if l.len() == 0 {
                ControlFlow::Break(true)
            } else {
                match break_value(in_order_recurse(&l[0], right)) {
                    Some(v) => ControlFlow::Break(v),
                    None => if l.len() > 1 {
                        ControlFlow::Break(false)
                    } else {
                        ControlFlow::Continue(())
                    },
                }
            }
        },
        (Item::Integer(_), Item::List(r)) => {
            proof {
                lemma_models(r@);
            }
            if r.len() == 0 {
                ControlFlow::Break(false)
            } else {
                match break_value(in_order_recurse(left, &r[0])) {
                    Some(v) => ControlFlow::Break(v),
                    None => if r.len() > 1 {
                        ControlFlow::Break(true)
                    } else {
                        ControlFlow::Continue(())
                    },
                }
            }
        },
    }
}

/// Whether `left` is in order before `right`.
pub fn in_order(left: &Item, right: &Item) -> (r: bool)
    ensures
        r == ordered(model(*left), model(*right)),
{
    match in_order_recurse(left, right) {
        ControlFlow::Break(v) => v,
        ControlFlow::Continue(_) => true,
    }
}

impl Pair {
    /// Whether the first packet is in order before the second.
    pub fn in_order(&self) -> (r: bool)
        ensures
            r == ordered(model(self.first), model(self.second)),
    {
        in_order(&self.first, &self.second)
    }
}

/// Why a text is no packet.
#[derive(Debug, Clone, Copy, PartialEq, Eq)]
pub enum PacketError {
    /// The text does not start with `[` and end with `]`.
    NotAList,
    /// A `[` has no `]` to match it.
    Unbalanced,
    /// A number does not fit 64 bits.
    BadNumber,
    /// A character that starts neither a number nor a list.
    Unexpected,
    /// A lone `]` is left behind a list.
    Stray,
}

/// Index of the character at or after `i` that brings the balance of
/// `open` and `close` from `balance` to zero.
pub open spec fn matching(s: Seq<char>, open: char, close: char, i: int, balance: int) -> Option<int>
    decreases s.len() - i,
{
    if i < 0 || i >= s.len() {
        None
    } else {
        let b = if s[i] == close {
            balance - 1
        } else if s[i] == open {
            balance + 1
        } else {
            balance
        };
        if b == 0 {
            Some(i)
        } else {
            matching(s, open, close, i + 1, b)
        }
    }
}

/// Index of the `close` that matches the `open` at the start of `s`.
pub open spec fn balanced_end(s: Seq<char>, open: char, close: char) -> Option<int> {
    if s.len() == 0 || s[0] != open {
        None
    } else {
        matching(s, open, close, 1, 1)
    }
}

/// A match lies in the text, not before the place at which the search
/// for it began.
pub proof fn lemma_matching(s: Seq<char>, open: char, close: char, i: int, balance: int)
    requires
        0 <= i,
    ensures
        matching(s, open, close, i, balance) matches Some(k) ==> i <= k < s.len(),
    decreases s.len() - i,
{
    if i < s.len() {
        let b = if s[i] == close {
            balance - 1
        } else if s[i] == open {
            balance + 1
        } else {
            balance
        };
        if b != 0 {
            lemma_matching(s, open, close, i + 1, b);
        }
    }
}

/// Finds the `close` that matches the `open` at the start of `s`.
pub fn find_balanced(s: &[char], pair: (char, char)) -> (r: Option<usize>)
    ensures
        r matches Some(k) ==> balanced_end(s@, pair.0, pair.1) == Some(k as int) && 0 < k < s@.len(),
        r is None ==> balanced_end(s@, pair.0, pair.1) is None,
{
    if s.len() == 0 || s[0] != pair.0 {
        return None;
    }
    let mut balance: usize = 1;
    let mut i: usize = 1;
    while i < s.len()
        invariant
            1 <= i <= s@.len(),
            1 <= balance <= i,
            balanced_end(s@, pair.0, pair.1) == matching(s@, pair.0, pair.1, i as int, balance as int),
        decreases s@.len() - i,
    {
        let c = s[i];
        if c == pair.1 {
            balance -= 1;
        } else if c == pair.0 {
            balance += 1;
        }
        if balance == 0 {
            return Some(i);
        }
        i += 1;
    }
    None
}

/// A character that one byte writes.
pub open spec fn one_byte(c: char) -> bool {
    c as u32 <= 0x7f
}

/// Cuts `s`, which starts with the first character of `pair`, behind the
/// character that matches it. What follows is returned from the second
/// byte behind the match on: the closing character and the character
/// behind the match, if there is one, take one byte each.
pub fn slice_balanced(s: &str, pair: (char, char)) -> (r: Option<(&str, &str)>)
    requires
        one_byte(pair.1),
        balanced_end(s@, pair.0, pair.1) matches Some(k) ==> (k + 1 < s@.len() ==> one_byte(s@[k + 1])),
    ensures
        match r {
            Some((item, rest)) => {
                &&& balanced_end(s@, pair.0, pair.1) matches Some(k)
                &&& item@ == s@.take(k + 1)
                &&& rest@ == s@.skip(after_item(s@.len() as int, k))
            },
            None => balanced_end(s@, pair.0, pair.1) is None,
        },
{
    let chars = to_chars(s);
    match find_balanced(chars.as_slice(), pair) {
        None => None,
        Some(i) => {
            let len = chars.len();
            let end = if i + 1 < len {
                i + 2
            } else {
                len
            };
            proof {
                assert(s@.take(i + 1) == s@.subrange(0, i + 1));
                assert(s@.skip(end as int) == s@.subrange(end as int, len as int));
            }
            Some((s.substring_char(0, i + 1), s.substring_char(end, len)))
        },
    }
}

/// Where the text behind an item goes on, the item ending at index `k` of
/// a text of `len` characters: one character is passed over, if there is
/// one.
pub open spec fn after_item(len: int, k: int) -> int {
    if k + 1 < len {
        k + 2
    } else {
        len
    }
}

/// `s` without a comma at its start.
pub open spec fn without_comma(s: Seq<char>) -> Seq<char> {
    if s.len() > 0 && s[0] == ',' {
        s.drop_first()
    } else {
        s
    }
}

/// The packet that a text stands for: a number if it is made of digits,
/// else a list.
pub open spec fn item_of(s: Seq<char>) -> Result<Packet, PacketError>
    decreases s.len(), 1nat,
{
    if all_digits(s) {
        match digits_number(s) {
            Some(v) => Ok(Packet::Integer(v)),
            None => Err(PacketError::BadNumber),
        }
    } else {
        match packets_of(s) {
            Ok(l) => Ok(Packet::List(l)),
            Err(e) => Err(e),
        }
    }
}

/// The packets of a list: `[`, the elements, `]`.
pub open spec fn packets_of(s: Seq<char>) -> Result<Seq<Packet>, PacketError>
    decreases s.len(), 0nat,
{
    if s.len() < 2 || s[0] != '[' || s.last() != ']' {
        Err(PacketError::NotAList)
    } else {
        elements_of(s.subrange(1, s.len() - 1))
    }
}

/// The first element of `u`, which starts with a digit or `[`, and what
/// of `u` lies behind it.
pub open spec fn first_element(u: Seq<char>) -> Result<(Seq<char>, Seq<char>), PacketError> {
    if is_digit(u[0]) {
        let k = first_index(u, ',') as int;
        Ok(
            (
                u.take(k),
                if k < u.len() {
                    u.skip(k + 1)
                } else {
                    seq![]
                },
            ),
        )
    } else if u[0] == '[' {
        match balanced_end(u, '[', ']') {
            None => Err(PacketError::Unbalanced),
            Some(k) => if k + 1 < u.len() && !one_byte(u[k + 1]) {
                Err(PacketError::Unexpected)
            } else {
                Ok((u.take(k + 1), without_comma(u.skip(after_item(u.len() as int, k)))))
            },
        }
    } else {
        Err(PacketError::Unexpected)
    }
}

/// The packets that a text between `[` and `]` lists, with commas
/// between them.
pub open spec fn elements_of(t: Seq<char>) -> Result<Seq<Packet>, PacketError>
    decreases t.len(), 2nat,
    via elements_of_decreases
{
    let u = trimmed_start(t);
    if u.len() == 0 {
        Ok(seq![])
    } else {
        match first_element(u) {
            Err(e) => Err(e),
            Ok((text, rest)) => match item_of(text) {
                Err(e) => Err(e),
                Ok(item) => if rest == seq![']'] && u[0] == '[' {
                    Err(PacketError::Stray)
                } else {
                    match elements_of(rest) {
                        Err(e) => Err(e),
                        Ok(more) => Ok(seq![item] + more),
                    }
                },
            },
        }
    }
}

/// The first element and the rest are parts of the text.
pub proof fn lemma_first_element(u: Seq<char>)
    requires
        u.len() > 0,
    ensures
        first_element(u) matches Ok((text, rest)) ==> text.len() <= u.len() && rest.len() < u.len(),
{
    if is_digit(u[0]) {
        crate::text::lemma_first_index(u, ',');
    } else if u[0] == '[' {
        lemma_matching(u, '[', ']', 1, 1);
    }
}

#[via_fn]
proof fn elements_of_decreases(t: Seq<char>) {
    let u = trimmed_start(t);
    crate::text::lemma_trimmed_start(t);
    if u.len() > 0 {
        lemma_first_element(u);
    }
}

/// Reads one packet.
pub fn parse_item(s: &[char]) -> (r: Result<Item, PacketError>)
    ensures
        match r {
            Ok(item) => item_of(s@) == Ok::<Packet, PacketError>(model(item)),
            Err(e) => item_of(s@) == Err::<Packet, PacketError>(e),
        },
    decreases s@.len(), 1nat,
{
    let mut i: usize = 0;
    while i < s.len() && '0' <= s[i] && s[i] <= '9'
        invariant
            i <= s@.len(),
            forall|j: int| 0 <= j < i ==> is_digit(#[trigger] s@[j]),
        decreases s@.len() - i,
    {
        i += 1;
    }
    if i >= s.len() {
        match parse_digits(s) {
            Some(v) => Ok(Item::Integer(v)),
            None => Err(PacketError::BadNumber),
        }
    } else {
        assert(!is_digit(s@[i as int]));
        match parse_list(s) {
            Ok(l) => Ok(Item::List(l)),
            Err(e) => Err(e),
        }
    }
}

/// Reads the packets of a list.
pub fn parse_list(s: &[char]) -> (r: Result<Vec<Item>, PacketError>)
    ensures
        match r {
            Ok(items) => packets_of(s@) == Ok::<Seq<Packet>, PacketError>(models(items@)),
            Err(e) => packets_of(s@) == Err::<Seq<Packet>, PacketError>(e),
        },
    decreases s@.len(), 0nat,
{
    if s.len() < 2 || s[0] != '[' || s[s.len() - 1] != ']' {
        return Err(PacketError::NotAList);
    }
    let inner = slice_subrange(s, 1, s.len() - 1);
    assert(s@.last() == s@[s@.len() - 1]);
    let mut result: Vec<Item> = Vec::new();
    assert(models(result@) + elements_of(inner@).unwrap() == elements_of(inner@).unwrap());
    let mut t: &[char] = inner;
    loop
        invariant_except_break
            t@.len() <= inner@.len(),
            inner@.len() < s@.len(),
            match elements_of(t@) {
                Ok(more) => elements_of(inner@) == Ok::<Seq<Packet>, PacketError>(models(result@) + more),
                Err(e) => elements_of(inner@) == Err::<Seq<Packet>, PacketError>(e),
            },
        invariant
            packets_of(s@) == elements_of(inner@),
        ensures
            elements_of(inner@) == Ok::<Seq<Packet>, PacketError>(models(result@)),
        decreases t@.len(),
    {
        let u = trim_start(t);
        proof {
            crate::text::lemma_trimmed_start(t@);
        }
        if u.len() == 0 {
            assert(models(result@) + seq![] == models(result@));
            break ;
        }
        proof {
            lemma_first_element(u@);
        }
        let first = u[0];
        let (text, rest): (&[char], &[char]) = if '0' <= first && first <= '9' {
            let k = crate::text::find_from(u, 0, ',');
            assert(u@.skip(0) == u@);
            assert(u@.take(k as int) == u@.subrange(0, k as int));
            if k < u.len() {
                assert(u@.skip(k + 1) == u@.subrange(k + 1, u@.len() as int));
                (slice_subrange(u, 0, k), slice_subrange(u, k + 1, u.len()))
            } else {
                assert(u@.subrange(k as int, k as int) == Seq::<char>::empty());
                (slice_subrange(u, 0, k), slice_subrange(u, k, k))
            }
        } else if first == '[' {
            match find_balanced(u, ('[', ']')) {
                None => {
                    return Err(PacketError::Unbalanced);
                },
                Some(k) => {
                    if k + 1 < u.len() && u[k + 1] as u32 > 0x7f {
                        return Err(PacketError::Unexpected);
                    }
                    let end = if k + 1 < u.len() {
                        k + 2
                    } else {
                        u.len()
                    };
                    let end = if end < u.len() && u[end] == ',' {
                        end + 1
                    } else {
                        end
                    };
                    proof {
                        let after = u@.skip(after_item(u@.len() as int, k as int));
                        assert(u@.take(k + 1) == u@.subrange(0, k + 1));
                        assert(without_comma(after) == u@.subrange(end as int, u@.len() as int)) by {
                            if after.len() > 0 && after[0] == ',' {
                                assert(after.drop_first() == u@.subrange(end as int, u@.len() as int));
                            } else {
                                assert(after == u@.subrange(end as int, u@.len() as int));
                            }
                        }
                    }
                    (slice_subrange(u, 0, k + 1), slice_subrange(u, end, u.len()))
                },
            }
        } else {
            return Err(PacketError::Unexpected);
        };
        assert(first_element(u@) == Ok::<(Seq<char>, Seq<char>), PacketError>((text@, rest@)));
        let item = match parse_item(text) {
            Ok(item) => item,
            Err(e) => {
                return Err(e);
            },
        };
        if first == '[' && rest.len() == 1 && rest[0] == ']' {
            assert(rest@ =~= seq![']']);
            return Err(PacketError::Stray);
        }
        proof {
            if rest@ == seq![']'] {
                assert(seq![']'].len() == 1);
                assert(seq![']'][0] == ']');
            }
            lemma_models_push(result@, item);
            match elements_of(rest@) {
                Ok(more) => {
                    assert(models(result@) + (seq![model(item)] + more) == models(result@).push(
                        model(item),
                    ) + more);
                },
                Err(_) => {},
            }
        }
        result.push(item);
        t = rest;
    }
    Ok(result)
}

impl Item {
    /// Reads the packets of a list from its text.
    pub fn parse_items(s: &str) -> (r: Result<Vec<Item>, PacketError>)
        ensures
            match r {
                Ok(items) => packets_of(s@) == Ok::<Seq<Packet>, PacketError>(models(items@)),
                Err(e) => packets_of(s@) == Err::<Seq<Packet>, PacketError>(e),
            },
    {
        let chars = to_chars(s);
        parse_list(chars.as_slice())
    }
}

/// The two packets that a text stands for: a list, a line feed, and a
/// list.
pub open spec fn pair_of(s: Seq<char>) -> Result<(Packet, Packet), PacketError> {
    match around(s, '\n') {
        None => Err(PacketError::NotAList),
        Some((first, second)) => match packets_of(first) {
            Err(e) => Err(e),
            Ok(first) => match packets_of(second) {
                Err(e) => Err(e),
                Ok(second) => Ok((Packet::List(first), Packet::List(second))),
            },
        },
    }
}

impl Pair {
    /// Reads two packets from two lines.
    pub fn parse(s: &str) -> (r: Result<Pair, PacketError>)
        ensures
            match r {
                Ok(pair) => pair_of(s@) == Ok::<(Packet, Packet), PacketError>(
                    (model(pair.first), model(pair.second)),
                ),
                Err(e) => pair_of(s@) == Err::<(Packet, Packet), PacketError>(e),
            },
    {
        let chars = to_chars(s);
        let (s1, s2) = match split_once(chars.as_slice(), '\n') {
            Some(p) => p,
            None => {
                return Err(PacketError::NotAList);
            },
        };
        let first = match parse_list(s1) {
            Ok(items) => Item::List(items),
            Err(e) => {
                return Err(e);
            },
        };
        let second = match parse_list(s2) {
            Ok(items) => Item::List(items),
            Err(e) => {
                return Err(e);
            },
        };
        Ok(Pair { first, second })
    }
}

/// Every entry of the text is a list, and the entries come in twos.
pub open spec fn readable(s: Seq<char>) -> bool {
    &&& entries_of(s).len() % 2 == 0
    &&& forall|i: int| 0 <= i < entries_of(s).len() ==> packets_of(#[trigger] entries_of(s)[i]) is Ok
}

/// The packets of a text, one for each entry.
pub open spec fn packets_in(s: Seq<char>) -> Seq<Packet> {
    entries_of(s).map_values(|line: Seq<char>| Packet::List(packets_of(line).unwrap()))
}

/// Reads the packets of a text, or nothing where an entry is none.
pub fn parse_packets(input: &str) -> (r: Option<Vec<Item>>)
    ensures
        r is Some <==> forall|i: int|
            0 <= i < entries_of(input@).len() ==> packets_of(#[trigger] entries_of(input@)[i]) is Ok,
        r matches Some(v) ==> models(v@) == packets_in(input@),
{
    let chars = to_chars(input);
    let es = entries(chars.as_slice());
    let ghost all = entries_of(input@);
    let mut v: Vec<Item> = Vec::new();
    let mut i: usize = 0;
    while i < es.len()
        invariant
            i <= es@.len(),
            es@.len() == all.len(),
            all == entries_of(input@),
            forall|j: int| 0 <= j < es@.len() ==> (#[trigger] es@[j])@ == all[j],
            v@.len() == i,
            forall|j: int|
                0 <= j < i ==> packets_of(#[trigger] all[j]) == Ok::<Seq<Packet>, PacketError>(
                    model(v@[j])->List_0,
                ) && model(v@[j]) is List,
        decreases es@.len() - i,
    {
        match parse_list(es[i]) {
            Err(_) => {
                assert(packets_of(all[i as int]) is Err);
                return None;
            },
            Ok(items) => {
                v.push(Item::List(items));
            },
        }
        i += 1;
    }
    proof {
        lemma_models(v@);
        assert(models(v@) =~= packets_in(input@));
    }
    Some(v)
}

/// Reads the pairs of packets of a text: two entries in a row are a pair.
pub fn parse(input: &str) -> (pairs: Vec<Pair>)
    requires
        readable(input@),
    ensures
        pairs@.len() * 2 == packets_in(input@).len(),
        forall|i: int|
            0 <= i < pairs@.len() ==> model((#[trigger] pairs@[i]).first) == packets_in(input@)[2 * i]
                && model(pairs@[i].second) == packets_in(input@)[2 * i + 1],
{
    let mut items = match parse_packets(input) {
        Some(v) => v,
        None => vstd::pervasive::unreached(),
    };
    let ghost all = packets_in(input@);
    proof {
        lemma_models(items@);
    }
    let chunks = chunk_indices(items.len(), 2);
    let ghost runs = runs_of(items@.len() as int, 2);
    assert(chunks.deep_view() == runs);
    assert(runs.len() * 2 == items@.len());
    // the packets are taken out from the back, so that none is copied
    let mut reversed: Vec<Pair> = Vec::new();
    let mut k: usize = chunks.len();
    while k > 0
        invariant
            k <= chunks@.len(),
            chunks@.len() * 2 == all.len(),
            chunks.deep_view() == runs_of(all.len() as int, 2),
            items@.len() == 2 * k,
            forall|j: int| 0 <= j < 2 * k ==> #[trigger] model(items@[j]) == all[j],
            reversed@.len() == chunks@.len() - k,
            forall|j: int|
                0 <= j < reversed@.len() ==> model((#[trigger] reversed@[j]).first) == all[2 * (
                chunks@.len() - 1 - j)] && model(reversed@[j].second) == all[2 * (chunks@.len() - 1 - j)
                    + 1],
        decreases k,
    {
        k -= 1;
        proof {
            assert(chunks.deep_view()[k as int] == chunks@[k as int]@);
            assert(runs_of(all.len() as int, 2)[k as int] == span(2 * k, 2 * k + 2));
            assert(chunks@[k as int]@.len() == 2);
        }
        let second = items.pop().unwrap();
        let first = items.pop().unwrap();
        reversed.push(Pair { first, second });
    }
    let mut pairs: Vec<Pair> = Vec::new();
    let ghost total = reversed@.len();
    while reversed.len() > 0
        invariant
            total * 2 == all.len(),
            pairs@.len() + reversed@.len() == total,
            forall|j: int|
                0 <= j < reversed@.len() ==> model((#[trigger] reversed@[j]).first) == all[2 * (total
                    - 1 - j)] && model(reversed@[j].second) == all[2 * (total - 1 - j) + 1],
            forall|i: int|
                0 <= i < pairs@.len() ==> model((#[trigger] pairs@[i]).first) == all[2 * i] && model(
                    pairs@[i].second,
                ) == all[2 * i + 1],
        decreases reversed@.len(),
    {
        let pair = reversed.pop().unwrap();
        pairs.push(pair);
    }
    pairs
}

/// Sum of the numbers, counted from one, of the first `n` pairs of
/// `packets` that are in order.
pub open spec fn ordered_sum(packets: Seq<Packet>, n: nat) -> nat
    decreases n,
{
    if n == 0 {
        0
    } else {
        ordered_sum(packets, (n - 1) as nat) + if ordered(packets[2 * (n - 1)], packets[2 * (n - 1) + 1]) {
            n
        } else {
            0
        }
    }
}

/// The sum over `n` pairs is at most the sum of their numbers.
pub proof fn lemma_ordered_sum_bound(packets: Seq<Packet>, n: nat)
    ensures
        ordered_sum(packets, n) <= n * n,
    decreases n,
{
    if n > 0 {
        lemma_ordered_sum_bound(packets, (n - 1) as nat);
        assert((n - 1) * (n - 1) + n <= n * n) by (nonlinear_arith)
            requires
                n >= 1,
        ;
    }
}

/// Sum of the numbers of the pairs of `input` that are in order, the
/// pairs numbered from one.
pub fn star_one(input: &str) -> (r: usize)
    requires
        readable(input@),
        (packets_in(input@).len() / 2) * (packets_in(input@).len() / 2) <= usize::MAX,
    ensures
        r == ordered_sum(packets_in(input@), packets_in(input@).len() / 2),
{
    let pairs = parse(input);
    let ghost all = packets_in(input@);
    let mut sum: usize = 0;
    let mut i: usize = 0;
    while i < pairs.len()
        invariant
            i <= pairs@.len(),
            pairs@.len() * 2 == all.len(),
            pairs@.len() * pairs@.len() <= usize::MAX,
            forall|j: int|
                0 <= j < pairs@.len() ==> model((#[trigger] pairs@[j]).first) == all[2 * j] && model(
                    pairs@[j].second,
                ) == all[2 * j + 1],
            sum == ordered_sum(all, i as nat),
        decreases pairs@.len() - i,
    {
        proof {
            lemma_ordered_sum_bound(all, (i + 1) as nat);
            assert((i + 1) * (i + 1) <= pairs@.len() * pairs@.len()) by (nonlinear_arith)
                requires
                    0 <= i + 1 <= pairs@.len(),
            ;
        }
        if pairs[i].in_order() {
            sum = sum + (i + 1);
        }
        i += 1;
    }
    sum
}

/// Where `x` goes in the ordered list `sorted`: before the packets at its
/// end that it does not come after, so that a packet stands before the
/// packets put in earlier to which it stands as an equal.
pub open spec fn place_for(sorted: Seq<Packet>, x: Packet) -> int
    decreases sorted.len(),
{
    if sorted.len() == 0 || !ordered(x, sorted.last()) {
        sorted.len() as int
    } else {
        place_for(sorted.drop_last(), x)
    }
}

/// The packets put in order one after the other, each before the packets
/// that it does not come after.
pub open spec fn in_sequence(packets: Seq<Packet>) -> Seq<Packet>
    decreases packets.len(),
{
    if packets.len() == 0 {
        seq![]
    } else {
        let before = in_sequence(packets.drop_last());
        before.insert(place_for(before, packets.last()), packets.last())
    }
}

/// A place is an index of the list or its length.
pub proof fn lemma_place_for(sorted: Seq<Packet>, x: Packet)
    ensures
        0 <= place_for(sorted, x) <= sorted.len(),
    decreases sorted.len(),
{
    if sorted.len() > 0 && ordered(x, sorted.last()) {
        lemma_place_for(sorted.drop_last(), x);
    }
}

/// Putting packets in order keeps their number.
pub proof fn lemma_in_sequence_len(packets: Seq<Packet>)
    ensures
        in_sequence(packets).len() == packets.len(),
    decreases packets.len(),
{
    if packets.len() > 0 {
        lemma_in_sequence_len(packets.drop_last());
        lemma_place_for(in_sequence(packets.drop_last()), packets.last());
    }
}

/// Puts the packets in order.
pub fn sort_packets(list: Vec<Item>) -> (sorted: Vec<Item>)
    ensures
        models(sorted@) == in_sequence(models(list@)),
{
    let ghost all = models(list@);
    proof {
        lemma_models(list@);
        assert(models(Seq::<Item>::empty()).reverse() =~= seq![]);
        assert(all + seq![] == all);
    }
    let mut rest = list;
    // the packets are taken from the back, so that none is copied
    let mut stack: Vec<Item> = Vec::new();
    while rest.len() > 0
        invariant
            rest@.len() + stack@.len() == all.len(),
            models(rest@) + models(stack@).reverse() == all,
        decreases rest@.len(),
    {
        let ghost before = rest@;
        let item = rest.pop().unwrap();
        proof {
            assert(before == rest@.push(item));
            lemma_models_push(rest@, item);
            lemma_models_push(stack@, item);
            lemma_models(stack@);
            lemma_models(rest@);
            assert(models(before) + models(stack@).reverse() =~= models(rest@) + models(
                stack@.push(item),
            ).reverse());
        }
        stack.push(item);
    }
    let mut sorted: Vec<Item> = Vec::new();
    proof {
        lemma_models(stack@);
        assert(models(rest@) =~= seq![]);
        assert(models(stack@).reverse() =~= all);
        assert(all.take(0) =~= seq![]);
    }
    let ghost mut done: int = 0;
    while stack.len() > 0
        invariant
            0 <= done <= all.len(),
            stack@.len() == all.len() - done,
            models(stack@).len() == stack@.len(),
            forall|j: int| 0 <= j < stack@.len() ==> #[trigger] models(stack@)[j] == all[all.len() - 1 - j],
            models(sorted@) == in_sequence(all.take(done)),
        decreases stack@.len(),
    {
        let ghost before = stack@;
        let item = stack.pop().unwrap();
        let ghost x = model(item);
        let ghost so_far = models(sorted@);
        proof {
            assert(before == stack@.push(item));
            lemma_models_push(stack@, item);
            lemma_models(stack@);
            assert(models(before)[stack@.len() as int] == x);
            assert(x == all[done]);
            assert(all.take(done + 1).drop_last() == all.take(done));
            assert(all.take(done + 1).last() == x);
            lemma_models(sorted@);
        }
        let mut at: usize = sorted.len();
        assert(so_far.take(at as int) == so_far);
        while at > 0 && in_order(&item, &sorted[at - 1])
            invariant
                at <= sorted@.len(),
                so_far == models(sorted@),
                so_far.len() == sorted@.len(),
                forall|j: int| 0 <= j < sorted@.len() ==> #[trigger] so_far[j] == model(sorted@[j]),
                x == model(item),
                place_for(so_far, x) == place_for(so_far.take(at as int), x),
            decreases at,
        {
            proof {
                assert(so_far.take(at as int).last() == so_far[at - 1]);
                assert(so_far.take(at as int).drop_last() == so_far.take(at - 1));
            }
            at -= 1;
        }
        proof {
            if at > 0 {
                assert(so_far.take(at as int).last() == so_far[at - 1]);
            }
            assert(place_for(so_far, x) == at);
            lemma_models_insert(sorted@, at as int, item);
        }
        sorted.insert(at, item);
        proof {
            done = done + 1;
            assert forall|j: int| 0 <= j < stack@.len() implies #[trigger] models(stack@)[j] == all[all.len()
                - 1 - j] by {
                assert(models(before)[j] == models(stack@)[j]);
            }
        }
    }
    proof {
        assert(all.take(done) == all);
    }
    sorted
}

/// The meanings of packets with one more packet put in.
pub proof fn lemma_models_insert(items: Seq<Item>, at: int, item: Item)
    requires
        0 <= at <= items.len(),
    ensures
        models(items.insert(at, item)) == models(items).insert(at, model(item)),
{
    lemma_models(items);
    lemma_models(items.insert(at, item));
    assert(models(items.insert(at, item)) =~= models(items).insert(at, model(item)));
}

/// The first divider packet, `[[2]]`.
pub open spec fn divider_two() -> Packet {
    Packet::List(seq![Packet::List(seq![Packet::Integer(2)])])
}

/// The second divider packet, `[[6]]`.
pub open spec fn divider_six() -> Packet {
    Packet::List(seq![Packet::List(seq![Packet::Integer(6)])])
}

/// Whether `p` is one of the divider packets.
pub open spec fn is_divider(p: Packet) -> bool {
    p == divider_two() || p == divider_six()
}

/// Index of the first divider packet at or after index `from`, or the
/// length of `list` if there is none.
pub open spec fn next_divider(list: Seq<Packet>, from: int) -> int
    decreases list.len() - from,
{
    if from < 0 || from >= list.len() {
        list.len() as int
    } else if is_divider(list[from]) {
        from
    } else {
        next_divider(list, from + 1)
    }
}

/// The decoder key of an ordered list of packets: the product of the
/// places, counted from one, of its first two divider packets.
pub open spec fn decoder_key(list: Seq<Packet>) -> int {
    let first = next_divider(list, 0);
    let second = next_divider(list, first + 1);
    (first + 1) * (second + 1)
}

/// Whether `item` is the packet `[[n]]`.
fn is_wrapped(item: &Item, n: u64) -> (r: bool)
    ensures
        r == (model(*item) == Packet::List(seq![Packet::List(seq![Packet::Integer(n)])])),
{
    match item {
        Item::List(outer) => {
            proof {
                lemma_models(outer@);
                assert(seq![Packet::List(seq![Packet::Integer(n)])].len() == 1);
                assert(seq![Packet::List(seq![Packet::Integer(n)])][0] == Packet::List(seq![Packet::Integer(n)]));
            }
            if outer.len() != 1 {
                return false;
            }
            match &outer[0] {
                Item::List(inner) => {
                    proof {
                        lemma_models(inner@);
                        assert(seq![Packet::Integer(n)].len() == 1);
                        assert(seq![Packet::Integer(n)][0] == Packet::Integer(n));
                    }
                    if inner.len() != 1 {
                        return false;
                    }
                    match &inner[0] {
                        Item::Integer(v) => {
                            let r = *v == n;
                            proof {
                                if r {
                                    assert(models(inner@) =~= seq![Packet::Integer(n)]);
                                    assert(models(outer@) =~= seq![Packet::List(seq![Packet::Integer(n)])]);
                                }
                            }
                            r
                        },
                        Item::List(_) => false,
                    }
                },
                Item::Integer(_) => false,
            }
        },
        Item::Integer(_) => false,
    }
}

/// No packet stands as an equal to a divider packet, so that the places
/// of the divider packets do not hang on the order among equals.
pub open spec fn apart_from_dividers(packets: Seq<Packet>) -> bool {
    forall|i: int|
        0 <= i < packets.len() ==> compare(#[trigger] packets[i], divider_two()) is Some && compare(
            packets[i],
            divider_six(),
        ) is Some
}

/// The packets of a text with the two divider packets behind them.
pub open spec fn with_dividers(packets: Seq<Packet>) -> Seq<Packet> {
    packets.push(divider_two()).push(divider_six())
}

/// The decoder key of the packets of `input`: the packets and the two
/// divider packets are put in order, and the places of the first two
/// divider packets are multiplied.
pub fn star_two(input: &str) -> (r: usize)
    requires
        readable(input@),
        apart_from_dividers(packets_in(input@)),
        (packets_in(input@).len() + 3) * (packets_in(input@).len() + 3) <= usize::MAX,
    ensures
        r == decoder_key(in_sequence(with_dividers(packets_in(input@)))),
{
    let mut list = match parse_packets(input) {
        Some(v) => v,
        None => vstd::pervasive::unreached(),
    };
    let ghost all = with_dividers(packets_in(input@));
    let mut two: Vec<Item> = Vec::new();
    two.push(Item::Integer(2));
    let mut outer_two: Vec<Item> = Vec::new();
    outer_two.push(Item::List(two));
    let mut six: Vec<Item> = Vec::new();
    six.push(Item::Integer(6));
    let mut outer_six: Vec<Item> = Vec::new();
    outer_six.push(Item::List(six));
    let first_divider = Item::List(outer_two);
    let second_divider = Item::List(outer_six);
    proof {
        lemma_wrapped(first_divider, 2);
        lemma_wrapped(second_divider, 6);
        lemma_models_push(list@, first_divider);
        lemma_models_push(list@.push(first_divider), second_divider);
    }
    list.push(first_divider);
    list.push(second_divider);
    assert(models(list@) == all);
    let ordered = sort_packets(list);
    let ghost seq = in_sequence(all);
    proof {
        lemma_in_sequence_len(all);
        lemma_models(ordered@);
    }
    let len = ordered.len();
    let mut first: usize = 0;
    while first < len && !(is_wrapped(&ordered[first], 2) || is_wrapped(&ordered[first], 6))
        invariant
            first <= len,
            len == ordered@.len(),
            seq == models(ordered@),
            seq.len() == len,
            forall|j: int| 0 <= j < len ==> #[trigger] seq[j] == model(ordered@[j]),
            next_divider(seq, 0) == next_divider(seq, first as int),
        decreases len - first,
    {
        first += 1;
    }
    let mut second: usize = if first < len {
        first + 1
    } else {
        len
    };
    proof {
        if first >= len {
            assert(next_divider(seq, first + 1) == len);
        }
    }
    while second < len && !(is_wrapped(&ordered[second], 2) || is_wrapped(&ordered[second], 6))
        invariant
            second <= len,
            len == ordered@.len(),
            seq == models(ordered@),
            seq.len() == len,
            forall|j: int| 0 <= j < len ==> #[trigger] seq[j] == model(ordered@[j]),
            next_divider(seq, first + 1) == next_divider(seq, second as int),
        decreases len - second,
    {
        second += 1;
    }
    assert(len == packets_in(input@).len() + 2);
    assert((first + 1) * (second + 1) <= (len + 1) * (len + 1)) by (nonlinear_arith)
        requires
            first <= len,
            second <= len,
    ;
    (first + 1) * (second + 1)
}

/// The packet `[[n]]`, built from its parts, means `[[n]]`.
proof fn lemma_wrapped(item: Item, n: u64)
    requires
        item is List,
        item->List_0@.len() == 1,
        item->List_0@[0] is List,
        item->List_0@[0]->List_0@.len() == 1,
        item->List_0@[0]->List_0@[0] == Item::Integer(n),
    ensures
        model(item) == Packet::List(seq![Packet::List(seq![Packet::Integer(n)])]),
{
    let outer = item->List_0@;
    let inner = outer[0]->List_0@;
    lemma_models(outer);
    lemma_models(inner);
    assert(models(inner) =~= seq![Packet::Integer(n)]);
    assert(models(outer) =~= seq![Packet::List(seq![Packet::Integer(n)])]);
}

} // verus!
