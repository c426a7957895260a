use crate::math::Vector2;
use crate::text::{
    entries, entries_of, first_space, is_space, is_whitespace, number_of, parse_u64, to_chars, trim, trimmed,
};
use vstd::prelude::*;
use vstd::slice::slice_subrange;

verus! {

/// The way a step goes.
#[derive(Debug, Clone, Copy, PartialEq, Eq, Structural)]
pub enum Direction {
    Left,
    Right,
    Up,
    Down,
}

/// A number of steps in one direction.
#[derive(Debug, Clone, Copy)]
pub struct Motion {
    pub direction: Direction,
    pub steps: usize,
}

/// The head of a rope and the knots that follow it, nearest first.
#[derive(Debug)]
pub struct State {
    pub head: Vector2,
    pub tail: Vec<Vector2>,
}

/// How far from the start a rope may come: within this distance no
/// coordinate and no square of a difference of coordinates leaves 64 bits.
pub const REACH: i64 = 0x2000_0000;

impl Vector2 {
    /// Both coordinates are at most `bound` away from zero.
    pub open spec fn within(self, bound: int) -> bool {
        -bound <= self.x <= bound && -bound <= self.y <= bound
    }

    /// The two places are the same or touch, diagonally too.
    pub open spec fn touches(self, to: Vector2) -> bool {
        -1 <= self.x - to.x <= 1 && -1 <= self.y - to.y <= 1
    }

    /// Whether the two places are the same or touch, diagonally too.
    pub fn is_adjacent(&self, to: &Vector2) -> (r: bool)
        requires
            self.within(REACH as int),
            to.within(REACH as int),
        ensures
            r == self.touches(*to),
    {
        let dx = self.x - to.x;
        let dy = self.y - to.y;
        assert(dx * dx <= 0x1000_0000_0000_0000 && dy * dy <= 0x1000_0000_0000_0000 && dx * dx >= 0 && dy
            * dy >= 0) by (nonlinear_arith)
            requires
                -0x4000_0000 <= dx <= 0x4000_0000,
                -0x4000_0000 <= dy <= 0x4000_0000,
        ;
        assert((dx * dx + dy * dy <= 2) == (-1 <= dx <= 1 && -1 <= dy <= 1)) by (nonlinear_arith);
        dx * dx + dy * dy <= 2
    }
}

/// The sign of `v`: -1, 0 or 1.
pub open spec fn sign(v: int) -> int {
    if v < 0 {
        -1
    } else if v > 0 {
        1
    } else {
        0
    }
}

/// The sign of `v`: -1, 0 or 1.
pub fn clamp(v: i64) -> (r: i64)
    ensures
        r == sign(v as int),
{
    if v < 0 {
        -1
    } else if v > 0 {
        1
    } else {
        0
    }
}

/// The place one step from `from` in the direction `d`.
pub open spec fn stepped(from: Vector2, d: Direction) -> Vector2 {
    match d {
        Direction::Left => Vector2 { x: (from.x - 1) as i64, y: from.y },
        Direction::Right => Vector2 { x: (from.x + 1) as i64, y: from.y },
        Direction::Up => Vector2 { x: from.x, y: (from.y + 1) as i64 },
        Direction::Down => Vector2 { x: from.x, y: (from.y - 1) as i64 },
    }
}

/// Where a knot at `knot` goes when the knot ahead of it is at `ahead`:
/// nowhere if the two touch, else one step towards it along each axis on
/// which they differ.
pub open spec fn follow(ahead: Vector2, knot: Vector2) -> Vector2 {
    if ahead.touches(knot) {
        knot
    } else {
        Vector2 {
            x: (knot.x + sign(ahead.x - knot.x)) as i64,
            y: (knot.y + sign(ahead.y - knot.y)) as i64,
        }
    }
}

/// Where knot `i` of `tail` goes when the head has come to `head`: each
/// knot follows the one ahead of it, the first the head.
pub open spec fn knot_after(head: Vector2, tail: Seq<Vector2>, i: int) -> Vector2
    decreases i,
{
    if i <= 0 {
        follow(head, tail[0])
    } else {
        follow(knot_after(head, tail, i - 1), tail[i])
    }
}

/// A rope, as far as the rules of its motion go.
pub struct Rope {
    pub head: Vector2,
    pub tail: Seq<Vector2>,
}

impl View for State {
    type V = Rope;

    open spec fn view(&self) -> Rope {
        Rope { head: self.head, tail: self.tail@ }
    }
}

impl Rope {
    /// Head and knots are at most `bound` away from the start.
    pub open spec fn within(self, bound: int) -> bool {
        self.head.within(bound) && forall|i: int| 0 <= i < self.tail.len() ==> (#[trigger] self.tail[i]).within(bound)
    }

    /// The rope after its head has gone one step in the direction `d`.
    pub open spec fn after_step(self, d: Direction) -> Rope {
        Rope {
            head: stepped(self.head, d),
            tail: Seq::new(self.tail.len(), |i: int| knot_after(stepped(self.head, d), self.tail, i)),
        }
    }

    /// The rope after its head has gone `n` steps in the direction `d`.
    pub open spec fn after_steps(self, d: Direction, n: nat) -> Rope
        decreases n,
    {
        if n == 0 {
            self
        } else {
            self.after_steps(d, (n - 1) as nat).after_step(d)
        }
    }

    /// The places of the last knot before and after each of `n` steps in
    /// the direction `d`.
    pub open spec fn ends_during(self, d: Direction, n: nat) -> Set<Vector2>
        decreases n,
    {
        if n == 0 {
            set![self.tail.last()]
        } else {
            self.ends_during(d, (n - 1) as nat).insert(self.after_steps(d, n).tail.last())
        }
    }

    /// The rope after the motions `ms`.
    pub open spec fn after_motions(self, ms: Seq<Motion>) -> Rope
        decreases ms.len(),
    {
        if ms.len() == 0 {
            self
        } else {
            self.after_motions(ms.drop_last()).after_steps(ms.last().direction, ms.last().steps as nat)
        }
    }

    /// The places of the last knot before and after each step of the
    /// motions `ms`.
    pub open spec fn ends_over(self, ms: Seq<Motion>) -> Set<Vector2>
        decreases ms.len(),
    {
        if ms.len() == 0 {
            Set::empty()
        } else {
            self.ends_over(ms.drop_last()).union(
                self.after_motions(ms.drop_last()).ends_during(ms.last().direction, ms.last().steps as nat),
            )
        }
    }
}

/// Number of steps of the motions `ms`.
pub open spec fn total_steps(ms: Seq<Motion>) -> nat
    decreases ms.len(),
{
    if ms.len() == 0 {
        0
    } else {
        total_steps(ms.drop_last()) + ms.last().steps as nat
    }
}

/// A follower stays as near to the start as the farther of itself and the
/// knot ahead.
pub proof fn lemma_follow_within(ahead: Vector2, knot: Vector2, bound: int)
    requires
        ahead.within(bound),
        knot.within(bound),
        bound <= i64::MAX,
    ensures
        follow(ahead, knot).within(bound),
        follow(ahead, knot).x == if ahead.touches(knot) {
            knot.x as int
        } else {
            knot.x + sign(ahead.x - knot.x)
        },
        follow(ahead, knot).y == if ahead.touches(knot) {
            knot.y as int
        } else {
            knot.y + sign(ahead.y - knot.y)
        },
{
}

/// Knots stay as near to the start as the head has come.
pub proof fn lemma_knot_after_within(head: Vector2, tail: Seq<Vector2>, i: int, bound: int)
    requires
        head.within(bound),
        forall|j: int| 0 <= j < tail.len() ==> (#[trigger] tail[j]).within(bound),
        0 <= i < tail.len(),
        bound <= i64::MAX,
    ensures
        knot_after(head, tail, i).within(bound),
    decreases i,
{
    if i <= 0 {
        lemma_follow_within(head, tail[0], bound);
    } else {
        lemma_knot_after_within(head, tail, i - 1, bound);
        lemma_follow_within(knot_after(head, tail, i - 1), tail[i], bound);
    }
}

/// A step takes a rope at most one farther from the start.
pub proof fn lemma_after_step_within(r: Rope, d: Direction, bound: int)
    requires
        r.within(bound),
        0 <= bound < i64::MAX,
    ensures
        r.after_step(d).within(bound + 1),
        r.after_step(d).tail.len() == r.tail.len(),
{
    let head = stepped(r.head, d);
    assert forall|i: int| 0 <= i < r.tail.len() implies (#[trigger] r.after_step(d).tail[i]).within(bound + 1) by {
        lemma_knot_after_within(head, r.tail, i, bound + 1);
    }
}

/// Steps take a rope at most their number farther from the start.
pub proof fn lemma_after_steps_within(r: Rope, d: Direction, n: nat, bound: int)
    requires
        r.within(bound),
        0 <= bound,
        bound + n < i64::MAX,
    ensures
        r.after_steps(d, n).within(bound + n),
        r.after_steps(d, n).tail.len() == r.tail.len(),
    decreases n,
{
    if n > 0 {
        lemma_after_steps_within(r, d, (n - 1) as nat, bound);
        lemma_after_step_within(r.after_steps(d, (n - 1) as nat), d, bound + n - 1);
    }
}

/// Motions take a rope at most their steps farther from the start.
pub proof fn lemma_after_motions_within(r: Rope, ms: Seq<Motion>, bound: int)
    requires
        r.within(bound),
        0 <= bound,
        bound + total_steps(ms) < i64::MAX,
    ensures
        r.after_motions(ms).within(bound + total_steps(ms)),
        r.after_motions(ms).tail.len() == r.tail.len(),
    decreases ms.len(),
{
    if ms.len() > 0 {
        lemma_after_motions_within(r, ms.drop_last(), bound);
        lemma_after_steps_within(
            r.after_motions(ms.drop_last()),
            ms.last().direction,
            ms.last().steps as nat,
            bound + total_steps(ms.drop_last()),
        );
    }
}

impl State {
    /// A rope with `tail_length` knots behind its head, all at the start.
    pub fn new(tail_length: usize) -> (s: Self)
        ensures
            s@.head == (Vector2 { x: 0, y: 0 }),
            s@.tail.len() == tail_length,
            forall|i: int| 0 <= i < tail_length ==> #[trigger] s@.tail[i] == (Vector2 { x: 0, y: 0 }),
            s@.within(0),
    {
        let mut tail: Vec<Vector2> = Vec::new();
        let mut i: usize = 0;
        while i < tail_length
            invariant
                i <= tail_length,
                tail@.len() == i,
                forall|j: int| 0 <= j < i ==> #[trigger] tail@[j] == (Vector2 { x: 0, y: 0 }),
            decreases tail_length - i,
        {
            tail.push(Vector2::new(0, 0));
            i += 1;
        }
        Self { head: Vector2::new(0, 0), tail }
    }

    /// Moves the head one step and lets each knot follow the one ahead.
    pub fn step_once(&mut self, direction: Direction)
        requires
            old(self)@.within(REACH - 1),
        ensures
            final(self)@ == old(self)@.after_step(direction),
    {
        let ghost before = self@;
        self.head = match direction {
            Direction::Left => Vector2::new(self.head.x - 1, self.head.y),
            Direction::Right => Vector2::new(self.head.x + 1, self.head.y),
            Direction::Up => Vector2::new(self.head.x, self.head.y + 1),
            Direction::Down => Vector2::new(self.head.x, self.head.y - 1),
        };
        let len = self.tail.len();
        let mut i: usize = 0;
        while i < len
            invariant
                i <= len,
                len == before.tail.len(),
                self.tail@.len() == len,
                before.within(REACH - 1),
                self.head == stepped(before.head, direction),
                self.head.within(REACH as int),
                forall|j: int| 0 <= j < i ==> #[trigger] self.tail@[j] == knot_after(self.head, before.tail, j),
                forall|j: int| i <= j < len ==> #[trigger] self.tail@[j] == before.tail[j],
            decreases len - i,
        {
            let ahead = if i == 0 {
                self.head
            } else {
                self.tail[i - 1]
            };
            let knot = self.tail[i];
            proof {
                assert(knot == before.tail[i as int]);
                assert(knot.within(REACH as int));
                if i > 0 {
                    lemma_knot_after_within(self.head, before.tail, i - 1, REACH as int);
                }
                lemma_follow_within(ahead, knot, REACH as int);
            }
            if !ahead.is_adjacent(&knot) {
                let moved = Vector2::new(knot.x + clamp(ahead.x - knot.x), knot.y + clamp(ahead.y - knot.y));
                self.tail[i] = moved;
            }
            i += 1;
        }
        assert(self@.tail =~= before.after_step(direction).tail);
    }

    /// Carries out a motion step by step and notes in `seen` where the
    /// last knot is before the motion and after each step.
    pub fn apply(&mut self, motion: &Motion, seen: &mut Vec<Vector2>)
        requires
            old(self)@.tail.len() > 0,
            old(self)@.within(REACH - 1 - motion.steps),
            old(seen)@.no_duplicates(),
        ensures
            final(self)@ == old(self)@.after_steps(motion.direction, motion.steps as nat),
            final(seen)@.no_duplicates(),
            final(seen)@.to_set() == old(seen)@.to_set().union(
                old(self)@.ends_during(motion.direction, motion.steps as nat),
            ),
    {
        let ghost from = self@;
        let ghost bound = REACH - 1 - motion.steps;
        note(seen, self.tail[self.tail.len() - 1]);
        assert(seen@.to_set() =~= old(seen)@.to_set().union(from.ends_during(motion.direction, 0)));
        let mut k: usize = 0;
        while k < motion.steps
            invariant
                k <= motion.steps,
                from.tail.len() > 0,
                bound == REACH - 1 - motion.steps,
                from.within(bound),
                self@ == from.after_steps(motion.direction, k as nat),
                seen@.no_duplicates(),
                seen@.to_set() == old(seen)@.to_set().union(from.ends_during(motion.direction, k as nat)),
            decreases motion.steps - k,
        {
            proof {
                lemma_after_steps_within(from, motion.direction, k as nat, bound);
                lemma_after_steps_within(from, motion.direction, (k + 1) as nat, bound);
            }
            self.step_once(motion.direction);
            note(seen, self.tail[self.tail.len() - 1]);
            proof {
                assert(seen@.to_set() =~= old(seen)@.to_set().union(
                    from.ends_during(motion.direction, (k + 1) as nat),
                ));
            }
            k += 1;
        }
    }
}

/// The direction a word stands for, by its first character other than
/// white space: `L`, `R`, `U` or `D`.
pub open spec fn direction_of(word: Seq<char>) -> Option<Direction> {
    let t = trimmed(word);
    if t.len() == 0 {
        None
    } else if t[0] == 'L' {
        Some(Direction::Left)
    } else if t[0] == 'R' {
        Some(Direction::Right)
    } else if t[0] == 'U' {
        Some(Direction::Up)
    } else if t[0] == 'D' {
        Some(Direction::Down)
    } else {
        None
    }
}

/// Reads a direction.
pub fn parse_direction(word: &[char]) -> (r: Option<Direction>)
    ensures
        r == direction_of(word@),
{
    let t = trim(word);
    if t.len() == 0 {
        return None;
    }
    let first = t[0];
    if first == 'L' {
        Some(Direction::Left)
    } else if first == 'R' {
        Some(Direction::Right)
    } else if first == 'U' {
        Some(Direction::Up)
    } else if first == 'D' {
        Some(Direction::Down)
    } else {
        None
    }
}

/// The motion a line stands for: a direction, one character of white
/// space, and a number of steps that fits the machine's word.
pub open spec fn motion_of(line: Seq<char>) -> Option<Motion> {
    let t = trimmed(line);
    let k = first_space(t) as int;
    if k >= t.len() {
        None
    } else {
        match (direction_of(t.take(k)), number_of(t.skip(k + 1))) {
            (Some(direction), Some(steps)) => if steps <= usize::MAX {
                Some(Motion { direction, steps: steps as usize })
            } else {
                None
            },
            _ => None,
        }
    }
}

/// Reads a motion.
pub fn parse_motion(line: &[char]) -> (r: Option<Motion>)
    ensures
        r == motion_of(line@),
{
    let t = trim(line);
    let mut k: usize = 0;
    while k < t.len() && !is_whitespace(t[k])
        invariant
            k <= t@.len(),
            forall|i: int| 0 <= i < k ==> !is_space(#[trigger] t@[i]),
        decreases t@.len() - k,
    {
        k += 1;
    }
    proof {
        crate::text::lemma_first_space_is(t@, k as int);
    }
    if k >= t.len() {
        return None;
    }
    assert(t@.take(k as int) == t@.subrange(0, k as int));
    assert(t@.skip(k + 1) == t@.subrange(k + 1, t@.len() as int));
    match (parse_direction(slice_subrange(t, 0, k)), parse_u64(slice_subrange(t, k + 1, t.len()))) {
        (Some(direction), Some(steps)) => {
            if steps <= usize::MAX as u64 {
                Some(Motion { direction, steps: steps as usize })
            } else {
                None
            }
        },
        _ => None,
    }
}

/// Every entry of the text is a motion.
pub open spec fn readable(s: Seq<char>) -> bool {
    forall|i: int| 0 <= i < entries_of(s).len() ==> motion_of(#[trigger] entries_of(s)[i]) is Some
}

/// The motions of a text, one for each entry.
pub open spec fn motions_of(s: Seq<char>) -> Seq<Motion> {
    entries_of(s).map_values(|line: Seq<char>| motion_of(line)->0)
}

/// Reads the motions of a text, or nothing where an entry is none.
pub fn parse(input: &str) -> (r: Option<Vec<Motion>>)
    ensures
        r is Some <==> readable(input@),
        r matches Some(v) ==> v@ == motions_of(input@),
{
    let chars = to_chars(input);
    let es = entries(chars.as_slice());
    let ghost all = entries_of(input@);
    let mut v: Vec<Motion> = Vec::new();
    let mut i: usize = 0;
    while i < es.len()
        invariant
            i <= es@.len(),
            es@.len() == all.len(),
            all == entries_of(input@),
            forall|j: int| 0 <= j < es@.len() ==> (#[trigger] es@[j])@ == all[j],
            v@.len() == i,
            forall|j: int| 0 <= j < i ==> motion_of(#[trigger] all[j]) == Some(v@[j]),
        decreases es@.len() - i,
    {
        match parse_motion(es[i]) {
            None => {
                assert(motion_of(all[i as int]) is None);
                return None;
            },
            Some(m) => {
                v.push(m);
            },
        }
        i += 1;
    }
    assert(v@ =~= motions_of(input@));
    Some(v)
}

/// Adds `place` to `seen` unless it is there.
fn note(seen: &mut Vec<Vector2>, place: Vector2)
    requires
        old(seen)@.no_duplicates(),
    ensures
        final(seen)@.no_duplicates(),
        final(seen)@.to_set() == old(seen)@.to_set().insert(place),
{
    let mut i: usize = 0;
    while i < seen.len()
        invariant
            i <= seen@.len(),
            seen@ == old(seen)@,
            seen@.no_duplicates(),
            forall|j: int| 0 <= j < i ==> seen@[j] != place,
        decreases seen@.len() - i,
    {
        if seen[i].x == place.x && seen[i].y == place.y {
            assert(seen@[i as int] == place);
            assert(seen@.contains(place));
            assert(seen@.to_set() =~= seen@.to_set().insert(place));
            return ;
        }
        i += 1;
    }
    let ghost before = seen@;
    seen.push(place);
    proof {
        assert forall|a: int, b: int| 0 <= a < b < seen@.len() implies seen@[a] != seen@[b] by {
            if b < before.len() {
                assert(before[a] != before[b]);
            }
        }
        assert forall|p: Vector2| seen@.to_set().contains(p) <==> before.to_set().insert(place).contains(
            p,
        ) by {
            if seen@.contains(p) {
                let j = choose|j: int| 0 <= j < seen@.len() && seen@[j] == p;
                if j < before.len() {
                    assert(before[j] == p);
                    assert(before.contains(p));
                }
            }
            if before.contains(p) {
                let j = choose|j: int| 0 <= j < before.len() && before[j] == p;
                assert(seen@[j] == p);
            }
            if p == place {
                assert(seen@[before.len() as int] == p);
            }
        }
        assert(seen@.to_set() =~= before.to_set().insert(place));
    }
}

/// The motions can be carried out by a rope with `tail_length` knots: the
/// rope has a knot behind its head, and the motions have no more than
/// [`REACH`] steps.
pub open spec fn feasible(ms: Seq<Motion>, tail_length: usize) -> bool {
    tail_length > 0 && total_steps(ms) < REACH
}

/// The rope before the first motion: head and `n` knots at the start.
pub open spec fn rope_at_start(n: usize) -> Rope {
    Rope { head: Vector2 { x: 0, y: 0 }, tail: Seq::new(n as nat, |i: int| Vector2 { x: 0, y: 0 }) }
}

/// The steps of the first few motions are no more than the steps of all.
pub proof fn lemma_total_steps_grows(ms: Seq<Motion>, k: int)
    requires
        0 <= k <= ms.len(),
    ensures
        total_steps(ms.take(k)) <= total_steps(ms),
    decreases ms.len() - k,
{
    if k < ms.len() {
        lemma_total_steps_grows(ms, k + 1);
        assert(ms.take(k + 1).drop_last() == ms.take(k));
    } else {
        assert(ms.take(k) == ms);
    }
}

/// Number of places that the last knot of a rope with `tail_length` knots
/// comes to in the course of the motions.
pub fn count_tail_places(motions: &Vec<Motion>, tail_length: usize) -> (r: usize)
    requires
        feasible(motions@, tail_length),
    ensures
        r == rope_at_start(tail_length).ends_over(motions@).len(),
        rope_at_start(tail_length).ends_over(motions@).finite(),
{
    let mut state = State::new(tail_length);
    let ghost start = rope_at_start(tail_length);
    assert(state@.tail =~= start.tail);
    let mut seen: Vec<Vector2> = Vec::new();
    let mut i: usize = 0;
    assert(motions@.take(0).len() == 0);
    assert(seen@.to_set() =~= Set::<Vector2>::empty());
    while i < motions.len()
        invariant
            i <= motions@.len(),
            tail_length > 0,
            start == rope_at_start(tail_length),
            start.within(0),
            total_steps(motions@) < REACH,
            state@ == start.after_motions(motions@.take(i as int)),
            seen@.no_duplicates(),
            seen@.to_set() == start.ends_over(motions@.take(i as int)),
        decreases motions@.len() - i,
    {
        let motion = motions[i];
        let ghost done = motions@.take(i as int);
        proof {
            assert(motions@.take(i + 1).drop_last() == done);
            assert(motions@.take(i + 1).last() == motion);
            lemma_total_steps_grows(motions@, i + 1);
            lemma_after_motions_within(start, done, 0);
        }
        state.apply(&motion, &mut seen);
        i += 1;
    }
    proof {
        assert(motions@.take(i as int) == motions@);
        seen@.unique_seq_to_set();
    }
    seen.len()
}

/// Number of places that the last knot of a rope with `tail_length` knots
/// comes to when its head follows the motions of `input`.
pub fn solve(input: &str, tail_length: usize) -> (r: usize)
    requires
        readable(input@),
        feasible(motions_of(input@), tail_length),
    ensures
        r == rope_at_start(tail_length).ends_over(motions_of(input@)).len(),
{
    match parse(input) {
        Some(motions) => count_tail_places(&motions, tail_length),
        None => vstd::pervasive::unreached(),
    }
}

/// Number of places that the knot behind the head comes to.
pub fn star_one(input: &str) -> (r: usize)
    requires
        readable(input@),
        feasible(motions_of(input@), 1),
    ensures
        r == rope_at_start(1).ends_over(motions_of(input@)).len(),
{
    solve(input, 1)
}

/// Number of places that the last of nine knots behind the head comes
/// to.
pub fn star_two(input: &str) -> (r: usize)
    requires
        readable(input@),
        feasible(motions_of(input@), 9),
    ensures
        r == rope_at_start(9).ends_over(motions_of(input@)).len(),
{
    solve(input, 9)
}

} // verus!
