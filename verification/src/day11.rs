use vstd::prelude::*;

verus! {

/// The greatest worry level, divisor and operand that the arithmetic of a
/// round can take without leaving 64 bits.
pub const LIMIT: u64 = 0xffff_ffff;

/// What a monkey does to the worry level of an item it inspects.
#[derive(Debug, Clone, Copy)]
pub enum Operation {
    MulOld(u64),
    AddOld(u64),
    MulOldSelf,
    AddOldSelf,
}

/// How a monkey decides where to throw an item.
#[derive(Debug, Clone, Copy)]
pub struct Test {
    pub operand: u64,
    pub true_target: usize,
    pub false_target: usize,
}

/// A monkey: the items it holds, by worry level, and its habits.
#[derive(Debug, Clone)]
pub struct Monkey {
    pub id: usize,
    pub items: Vec<u64>,
    pub operation: Operation,
    pub test: Test,
}

impl Operation {
    /// The operand, if there is one, is at most [`LIMIT`].
    pub open spec fn in_range(self) -> bool {
        match self {
            Operation::MulOld(arg) => arg <= LIMIT,
            Operation::AddOld(arg) => arg <= LIMIT,
            _ => true,
        }
    }

    /// The new worry level of `item`, reduced modulo `div_mod`.
    pub open spec fn spec_apply(self, item: int, div_mod: int) -> int {
        match self {
            Operation::MulOld(arg) => (item * arg) % div_mod,
            Operation::AddOld(arg) => (item + arg) % div_mod,
            Operation::MulOldSelf => (item * item) % div_mod,
            Operation::AddOldSelf => (item + item) % div_mod,
        }
    }

    /// The new worry level of `item`, reduced modulo `div_mod`.
    pub fn apply(self, item: u64, div_mod: u64) -> (r: u64)
        requires
            item <= LIMIT,
            self.in_range(),
            0 < div_mod <= LIMIT,
        ensures
            r == self.spec_apply(item as int, div_mod as int),
            r < div_mod,
    {
        match self {
            Operation::MulOld(arg) => {
                assert(item * arg <= u64::MAX) by (nonlinear_arith)
                    requires
                        item <= 0xffff_ffff,
                        arg <= 0xffff_ffff,
                ;
                (item * arg) % div_mod
            },
            Operation::AddOld(arg) => (item + arg) % div_mod,
            Operation::MulOldSelf => {
                assert(item * item <= u64::MAX) by (nonlinear_arith)
                    requires
                        item <= 0xffff_ffff,
                ;
                (item * item) % div_mod
            },
            Operation::AddOldSelf => (item + item) % div_mod,
        }
    }
}

impl Test {
    pub fn new(operand: u64, true_target: usize, false_target: usize) -> (t: Self)
        ensures
            t.operand == operand,
            t.true_target == true_target,
            t.false_target == false_target,
    {
        Self { operand, true_target, false_target }
    }

    /// The monkey that gets an item of worry level `item`.
    pub open spec fn spec_outcome(self, item: int) -> usize {
        if item % (self.operand as int) == 0 {
            self.true_target
        } else {
            self.false_target
        }
    }

    /// The monkey that gets an item of worry level `item`.
    pub fn outcome(&self, item: u64) -> (r: usize)
        requires
            self.operand > 0,
        ensures
            r == self.spec_outcome(item as int),
    {
        if item % self.operand == 0 {
            self.true_target
        } else {
            self.false_target
        }
    }
}

/// The worry level of `item` after the inspection by a monkey with the
/// operation `op`: a third of the new level, rounded down, unless you are
/// `worried`.
pub open spec fn inspected(op: Operation, item: int, worried: bool, div_mod: int) -> int {
    if worried {
        op.spec_apply(item, div_mod)
    } else {
        op.spec_apply(item, div_mod) / 3
    }
}

impl Monkey {
    pub fn new(id: usize, items: Vec<u64>, operation: Operation, test: Test) -> (m: Self)
        ensures
            m.id == id,
            m.items == items,
            m.operation == operation,
            m.test == test,
    {
        Self { id, items, operation, test }
    }

    /// The worry level of `item` after this monkey has inspected it.
    pub fn inspect(&self, item: u64, worried: bool, div_mod: u64) -> (r: u64)
        requires
            item <= LIMIT,
            self.operation.in_range(),
            0 < div_mod <= LIMIT,
        ensures
            r == inspected(self.operation, item as int, worried, div_mod as int),
            r < div_mod,
    {
        if worried {
            self.operation.apply(item, div_mod)
        } else {
            self.operation.apply(item, div_mod) / 3
        }
    }
}

/// The habits of a monkey.
pub type Habit = (Operation, Test);

/// The habits of the monkeys, which no round changes.
pub open spec fn habits_of(monkeys: Seq<Monkey>) -> Seq<Habit> {
    monkeys.map_values(|m: Monkey| (m.operation, m.test))
}

/// What each monkey holds.
pub open spec fn items_of(monkeys: Seq<Monkey>) -> Seq<Seq<u64>> {
    monkeys.map_values(|m: Monkey| m.items@)
}

/// Product of the divisors of the monkeys' tests.
pub open spec fn divisor_product(habits: Seq<Habit>) -> nat
    decreases habits.len(),
{
    if habits.len() == 0 {
        1
    } else {
        divisor_product(habits.drop_last()) * (habits.last().1.operand as nat)
    }
}

/// The habits can be followed: every operand is in range, every divisor
/// is positive, the product of the divisors is at most [`LIMIT`], and
/// every monkey throws to monkeys that exist.
pub open spec fn habits_ok(habits: Seq<Habit>) -> bool {
    &&& divisor_product(habits) <= LIMIT
    &&& forall|i: int|
        0 <= i < habits.len() ==> {
            &&& (#[trigger] habits[i]).0.in_range()
            &&& habits[i].1.operand > 0
            &&& habits[i].1.true_target < habits.len()
            &&& habits[i].1.false_target < habits.len()
        }
}

/// Every worry level is at most [`LIMIT`].
pub open spec fn items_ok(items: Seq<Seq<u64>>) -> bool {
    forall|i: int, j: int| 0 <= i < items.len() && 0 <= j < items[i].len() ==> #[trigger] items[i][j] <= LIMIT
}

/// What the monkeys hold after monkey `i` has inspected and thrown the
/// first `n` of the items that it held in `items`.
pub open spec fn after_throws(
    habits: Seq<Habit>,
    items: Seq<Seq<u64>>,
    i: int,
    n: nat,
    worried: bool,
    div_mod: int,
) -> Seq<Seq<u64>>
    decreases n,
{
    if n == 0 {
        items
    } else {
        let before = after_throws(habits, items, i, (n - 1) as nat, worried, div_mod);
        let value = inspected(habits[i].0, items[i][n - 1] as int, worried, div_mod);
        let target = habits[i].1.spec_outcome(value) as int;
        before.update(target, before[target].push(value as u64))
    }
}

/// What the monkeys hold, and how many items each has inspected.
pub struct Troop {
    pub items: Seq<Seq<u64>>,
    pub counts: Seq<nat>,
}

/// The troop after the turn of monkey `i`: it has inspected and thrown
/// every item it held when the turn began, and holds nothing.
pub open spec fn after_turn(habits: Seq<Habit>, t: Troop, i: int, worried: bool, div_mod: int) -> Troop {
    Troop {
        items: after_throws(habits, t.items, i, t.items[i].len(), worried, div_mod).update(i, seq![]),
        counts: t.counts.update(i, t.counts[i] + t.items[i].len()),
    }
}

/// The troop after the turns of the first `k` monkeys.
pub open spec fn after_turns(habits: Seq<Habit>, t: Troop, k: nat, worried: bool, div_mod: int) -> Troop
    decreases k,
{
    if k == 0 {
        t
    } else {
        after_turn(habits, after_turns(habits, t, (k - 1) as nat, worried, div_mod), k - 1, worried, div_mod)
    }
}

/// The troop after `r` rounds, in each of which every monkey has its
/// turn.
pub open spec fn after_rounds(habits: Seq<Habit>, t: Troop, r: nat, worried: bool) -> Troop
    decreases r,
{
    if r == 0 {
        t
    } else {
        after_turns(
            habits,
            after_rounds(habits, t, (r - 1) as nat, worried),
            habits.len(),
            worried,
            divisor_product(habits) as int,
        )
    }
}

/// The troop before the first round: nothing has been inspected.
pub open spec fn troop_of(monkeys: Seq<Monkey>) -> Troop {
    Troop { items: items_of(monkeys), counts: Seq::new(monkeys.len(), |i: int| 0nat) }
}

/// A troop has one list of items and one count for each monkey, and its
/// worry levels are in range.
pub open spec fn troop_ok(habits: Seq<Habit>, t: Troop) -> bool {
    t.items.len() == habits.len() && t.counts.len() == habits.len() && items_ok(t.items)
}

/// A product of positive divisors is positive, and no smaller than the
/// product of the first few.
pub proof fn lemma_divisor_product(habits: Seq<Habit>, k: int)
    requires
        0 <= k <= habits.len(),
        forall|i: int| 0 <= i < habits.len() ==> (#[trigger] habits[i]).1.operand > 0,
    ensures
        0 < divisor_product(habits.take(k)) <= divisor_product(habits),
    decreases habits.len() - k,
{
    if k < habits.len() {
        lemma_divisor_product(habits, k + 1);
        assert(habits.take(k + 1).drop_last() == habits.take(k));
        let a = divisor_product(habits.take(k));
        let b = habits[k].1.operand as nat;
        assert(habits.take(k + 1).last() == habits[k]);
        assert(0 < a * b ==> 0 < a <= a * b) by (nonlinear_arith)
            requires
                b > 0,
        ;
    } else {
        assert(habits.take(k) == habits);
        lemma_divisor_product_positive(habits);
    }
}

/// A product of positive divisors is positive.
pub proof fn lemma_divisor_product_positive(habits: Seq<Habit>)
    requires
        forall|i: int| 0 <= i < habits.len() ==> (#[trigger] habits[i]).1.operand > 0,
    ensures
        0 < divisor_product(habits),
    decreases habits.len(),
{
    if habits.len() > 0 {
        let rest = habits.drop_last();
        assert forall|i: int| 0 <= i < rest.len() implies (#[trigger] rest[i]).1.operand > 0 by {
            assert(rest[i] == habits[i]);
        }
        lemma_divisor_product_positive(rest);
        let a = divisor_product(rest);
        let b = habits.last().1.operand as nat;
        assert(0 < a * b) by (nonlinear_arith)
            requires
                a > 0,
                b > 0,
        ;
    }
}

/// Throws keep the number of monkeys and the range of the worry levels,
/// and what the thrower held stays at the start of what it holds.
pub proof fn lemma_after_throws(
    habits: Seq<Habit>,
    items: Seq<Seq<u64>>,
    i: int,
    n: nat,
    worried: bool,
    div_mod: int,
)
    requires
        habits_ok(habits),
        items.len() == habits.len(),
        items_ok(items),
        0 <= i < habits.len(),
        n <= items[i].len(),
        0 < div_mod <= LIMIT,
    ensures
        after_throws(habits, items, i, n, worried, div_mod).len() == habits.len(),
        items_ok(after_throws(habits, items, i, n, worried, div_mod)),
        after_throws(habits, items, i, n, worried, div_mod)[i].len() >= items[i].len(),
        forall|k: int|
            0 <= k < items[i].len() ==> after_throws(habits, items, i, n, worried, div_mod)[i][k]
                == items[i][k],
    decreases n,
{
    if n > 0 {
        lemma_after_throws(habits, items, i, (n - 1) as nat, worried, div_mod);
        let before = after_throws(habits, items, i, (n - 1) as nat, worried, div_mod);
        let item = items[i][n - 1] as int;
        let value = inspected(habits[i].0, item, worried, div_mod);
        lemma_inspected(habits[i].0, item, worried, div_mod);
        let target = habits[i].1.spec_outcome(value) as int;
        let after = before.update(target, before[target].push(value as u64));
        assert forall|a: int, b: int| 0 <= a < after.len() && 0 <= b < after[a].len() implies #[trigger] after[a][b]
            <= LIMIT by {
            if a == target && b == before[target].len() {
            } else {
                assert(before[a][b] <= LIMIT);
            }
        }
    }
}

/// An inspection leaves a worry level below the modulus.
pub proof fn lemma_inspected(op: Operation, item: int, worried: bool, div_mod: int)
    requires
        0 < div_mod,
        0 <= item,
    ensures
        0 <= inspected(op, item, worried, div_mod) < div_mod,
{
    let v = op.spec_apply(item, div_mod);
    assert(0 <= v < div_mod) by {
        match op {
            Operation::MulOld(arg) => vstd::arithmetic::div_mod::lemma_mod_bound(
                item * arg,
                div_mod,
            ),
            Operation::AddOld(arg) => vstd::arithmetic::div_mod::lemma_mod_bound(
                item + arg,
                div_mod,
            ),
            Operation::MulOldSelf => vstd::arithmetic::div_mod::lemma_mod_bound(
                item * item,
                div_mod,
            ),
            Operation::AddOldSelf => vstd::arithmetic::div_mod::lemma_mod_bound(
                item + item,
                div_mod,
            ),
        }
    }
}

/// A turn leaves a troop in order and lowers no count.
pub proof fn lemma_after_turn(habits: Seq<Habit>, t: Troop, i: int, worried: bool, div_mod: int)
    requires
        habits_ok(habits),
        troop_ok(habits, t),
        0 <= i < habits.len(),
        0 < div_mod <= LIMIT,
    ensures
        troop_ok(habits, after_turn(habits, t, i, worried, div_mod)),
        forall|k: int|
            0 <= k < habits.len() ==> t.counts[k] <= #[trigger] after_turn(
                habits,
                t,
                i,
                worried,
                div_mod,
            ).counts[k],
{
    lemma_after_throws(habits, t.items, i, t.items[i].len(), worried, div_mod);
    let thrown = after_throws(habits, t.items, i, t.items[i].len(), worried, div_mod);
    let after = thrown.update(i, seq![]);
    assert forall|a: int, b: int| 0 <= a < after.len() && 0 <= b < after[a].len() implies #[trigger] after[a][b]
        <= LIMIT by {
        assert(thrown[a][b] <= LIMIT);
    }
}

/// Turns leave a troop in order, and a count after some turns is no
/// greater than after more turns.
pub proof fn lemma_after_turns(habits: Seq<Habit>, t: Troop, k: nat, k2: nat, worried: bool, div_mod: int)
    requires
        habits_ok(habits),
        troop_ok(habits, t),
        k <= k2 <= habits.len(),
        0 < div_mod <= LIMIT,
    ensures
        troop_ok(habits, after_turns(habits, t, k, worried, div_mod)),
        troop_ok(habits, after_turns(habits, t, k2, worried, div_mod)),
        forall|j: int|
            0 <= j < habits.len() ==> after_turns(habits, t, k, worried, div_mod).counts[j]
                <= #[trigger] after_turns(habits, t, k2, worried, div_mod).counts[j],
    decreases k2,
{
    if k2 > 0 {
        lemma_after_turns(habits, t, if k < k2 {
            k
        } else {
            (k2 - 1) as nat
        }, (k2 - 1) as nat, worried, div_mod);
        lemma_after_turn(
            habits,
            after_turns(habits, t, (k2 - 1) as nat, worried, div_mod),
            k2 - 1,
            worried,
            div_mod,
        );
    }
}

/// Rounds leave a troop in order, and a count after some rounds is no
/// greater than after more rounds.
pub proof fn lemma_after_rounds(habits: Seq<Habit>, t: Troop, r: nat, r2: nat, worried: bool)
    requires
        habits_ok(habits),
        troop_ok(habits, t),
        r <= r2,
    ensures
        troop_ok(habits, after_rounds(habits, t, r, worried)),
        troop_ok(habits, after_rounds(habits, t, r2, worried)),
        forall|j: int|
            0 <= j < habits.len() ==> after_rounds(habits, t, r, worried).counts[j]
                <= #[trigger] after_rounds(habits, t, r2, worried).counts[j],
    decreases r2,
{
    if r2 > 0 {
        lemma_after_rounds(habits, t, if r < r2 {
            r
        } else {
            (r2 - 1) as nat
        }, (r2 - 1) as nat, worried);
        assert(habits.take(habits.len() as int) == habits);
        lemma_divisor_product(habits, habits.len() as int);
        lemma_after_turns(
            habits,
            after_rounds(habits, t, (r2 - 1) as nat, worried),
            0,
            habits.len(),
            worried,
            divisor_product(habits) as int,
        );
    }
}

/// The troop that the monkeys and the counts stand for.
pub open spec fn troop_at(monkeys: Seq<Monkey>, counts: Seq<u64>) -> Troop {
    Troop { items: items_of(monkeys), counts: counts.map_values(|c: u64| c as nat) }
}

/// Product of the divisors of the monkeys' tests.
pub fn divisor(monkeys: &Vec<Monkey>) -> (div_mod: u64)
    requires
        habits_ok(habits_of(monkeys@)),
    ensures
        div_mod == divisor_product(habits_of(monkeys@)),
        0 < div_mod <= LIMIT,
{
    let ghost habits = habits_of(monkeys@);
    let mut div_mod: u64 = 1;
    let mut i: usize = 0;
    assert(habits.take(0).len() == 0);
    while i < monkeys.len()
        invariant
            i <= monkeys@.len(),
            habits == habits_of(monkeys@),
            habits_ok(habits),
            div_mod == divisor_product(habits.take(i as int)),
        decreases monkeys@.len() - i,
    {
        proof {
            lemma_divisor_product(habits, i + 1);
            assert(habits.take(i + 1).drop_last() == habits.take(i as int));
            assert(habits.take(i + 1).last() == habits[i as int]);
        }
        div_mod = div_mod * monkeys[i].test.operand;
        i += 1;
    }
    proof {
        assert(habits.take(i as int) == habits);
        lemma_divisor_product(habits, i as int);
    }
    div_mod
}

/// One round: every monkey in turn inspects each item it holds and throws
/// it to another monkey. `counts` keeps, for each monkey, the number of
/// items it has inspected.
pub fn do_round(monkeys: &mut Vec<Monkey>, worried: bool, counts: &mut Vec<u64>)
    requires
        habits_ok(habits_of(old(monkeys)@)),
        troop_ok(habits_of(old(monkeys)@), troop_at(old(monkeys)@, old(counts)@)),
        forall|j: int|
            0 <= j < old(monkeys)@.len() ==> (#[trigger] after_turns(
                habits_of(old(monkeys)@),
                troop_at(old(monkeys)@, old(counts)@),
                old(monkeys)@.len(),
                worried,
                divisor_product(habits_of(old(monkeys)@)) as int,
            ).counts[j]) <= u64::MAX,
    ensures
        habits_of(final(monkeys)@) == habits_of(old(monkeys)@),
        troop_at(final(monkeys)@, final(counts)@) == after_turns(
            habits_of(old(monkeys)@),
            troop_at(old(monkeys)@, old(counts)@),
            old(monkeys)@.len(),
            worried,
            divisor_product(habits_of(old(monkeys)@)) as int,
        ),
{
    let ghost habits = habits_of(monkeys@);
    let ghost start = troop_at(monkeys@, counts@);
    let div_mod = divisor(monkeys);
    let len = monkeys.len();
    let ghost last = after_turns(habits, start, len as nat, worried, div_mod as int);
    let mut i: usize = 0;
    while i < len
        invariant
            i <= len,
            len == monkeys@.len(),
            habits == habits_of(monkeys@),
            habits_ok(habits),
            troop_ok(habits, start),
            0 < div_mod <= LIMIT,
            last == after_turns(habits, start, len as nat, worried, div_mod as int),
            forall|j: int| 0 <= j < len ==> (#[trigger] last.counts[j]) <= u64::MAX,
            troop_at(monkeys@, counts@) == after_turns(habits, start, i as nat, worried, div_mod as int),
        decreases len - i,
    {
        let ghost before = troop_at(monkeys@, counts@);
        let ghost next = after_turn(habits, before, i as int, worried, div_mod as int);
        proof {
            lemma_after_turns(habits, start, i as nat, (i + 1) as nat, worried, div_mod as int);
            lemma_after_turns(habits, start, (i + 1) as nat, len as nat, worried, div_mod as int);
            assert(next == after_turns(habits, start, (i + 1) as nat, worried, div_mod as int));
            assert(next.counts[i as int] <= last.counts[i as int]);
            assert(before.items[i as int] == monkeys@[i as int].items@);
            assert(before.counts[i as int] == counts@[i as int]);
        }
        let n = monkeys[i].items.len();
        let mut j: usize = 0;
        while j < n
            invariant
                j <= n,
                i < len,
                len == monkeys@.len(),
                habits == habits_of(monkeys@),
                habits_ok(habits),
                troop_ok(habits, before),
                0 < div_mod <= LIMIT,
                n == before.items[i as int].len(),
                counts@.len() == len,
                before.counts[i as int] + n <= u64::MAX,
                counts@ == before.counts.map_values(|c: nat| c as u64).update(
                    i as int,
                    (before.counts[i as int] + j) as u64,
                ),
                items_of(monkeys@) == after_throws(
                    habits,
                    before.items,
                    i as int,
                    j as nat,
                    worried,
                    div_mod as int,
                ),
            decreases n - j,
        {
            proof {
                lemma_after_throws(habits, before.items, i as int, j as nat, worried, div_mod as int);
                lemma_after_throws(habits, before.items, i as int, (j + 1) as nat, worried, div_mod as int);
                assert(items_of(monkeys@)[i as int] == monkeys@[i as int].items@);
                assert(habits[i as int] == (monkeys@[i as int].operation, monkeys@[i as int].test));
            }
            let item = monkeys[i].items[j];
            assert(item == before.items[i as int][j as int]);
            let new_value = monkeys[i].inspect(item, worried, div_mod);
            let new_monkey = monkeys[i].test.outcome(new_value);
            let ghost held = items_of(monkeys@);
            monkeys[new_monkey].items.push(new_value);
            counts[i] = counts[i] + 1;
            proof {
                assert(habits_of(monkeys@) =~= habits);
                assert(items_of(monkeys@) =~= held.update(
                    new_monkey as int,
                    held[new_monkey as int].push(new_value),
                ));
            }
            j += 1;
        }
        let ghost thrown = items_of(monkeys@);
        monkeys[i].items.clear();
        proof {
            assert(habits_of(monkeys@) =~= habits);
            assert(items_of(monkeys@) =~= thrown.update(i as int, seq![]));
            assert(counts@.map_values(|c: u64| c as nat) =~= next.counts);
        }
        i += 1;
    }
}

/// The two greatest of two values and one more, greatest first.
pub open spec fn with_one_more(top: (nat, nat), v: nat) -> (nat, nat) {
    if v > top.0 {
        (v, top.0)
    } else if v > top.1 {
        (top.0, v)
    } else {
        top
    }
}

/// The two greatest of `values`, greatest first; zero stands in where
/// there are fewer than two.
pub open spec fn top_two(values: Seq<nat>) -> (nat, nat)
    decreases values.len(),
{
    if values.len() == 0 {
        (0, 0)
    } else {
        with_one_more(top_two(values.drop_last()), values.last())
    }
}

/// The level of monkey business: the product of the two greatest counts
/// of the monkeys that have inspected anything. Where fewer than two
/// monkeys have, the product is that of the counts there are.
pub open spec fn business(counts: Seq<nat>) -> nat {
    let top = top_two(counts);
    (if top.0 == 0 {
        1
    } else {
        top.0
    }) * (if top.1 == 0 {
        1
    } else {
        top.1
    })
}

/// The monkeys can play `rounds` rounds: their habits can be followed,
/// their worry levels are in range, and neither a count nor the level of
/// monkey business leaves 64 bits.
pub open spec fn playable(monkeys: Seq<Monkey>, rounds: nat, worried: bool) -> bool {
    let last = after_rounds(habits_of(monkeys), troop_of(monkeys), rounds, worried);
    &&& habits_ok(habits_of(monkeys))
    &&& items_ok(items_of(monkeys))
    &&& forall|j: int| 0 <= j < monkeys.len() ==> (#[trigger] last.counts[j]) <= u64::MAX
    &&& business(last.counts) <= u64::MAX
}

/// The level of monkey business after `rounds` rounds.
pub fn solve(monkeys: Vec<Monkey>, rounds: usize, worried: bool) -> (r: u64)
    requires
        playable(monkeys@, rounds as nat, worried),
    ensures
        r == business(
            after_rounds(habits_of(monkeys@), troop_of(monkeys@), rounds as nat, worried).counts,
        ),
{
    let ghost habits = habits_of(monkeys@);
    let ghost start = troop_of(monkeys@);
    let ghost last = after_rounds(habits, start, rounds as nat, worried);
    let mut monkeys = monkeys;
    let mut counts: Vec<u64> = Vec::new();
    let mut k: usize = 0;
    while k < monkeys.len()
        invariant
            k <= monkeys@.len(),
            counts@.len() == k,
            forall|j: int| 0 <= j < k ==> #[trigger] counts@[j] == 0,
        decreases monkeys@.len() - k,
    {
        counts.push(0);
        k += 1;
    }
    assert(troop_at(monkeys@, counts@).counts =~= start.counts);
    let mut round: usize = 0;
    while round < rounds
        invariant
            round <= rounds,
            habits == habits_of(monkeys@),
            habits_ok(habits),
            troop_ok(habits, start),
            last == after_rounds(habits, start, rounds as nat, worried),
            forall|j: int| 0 <= j < habits.len() ==> (#[trigger] last.counts[j]) <= u64::MAX,
            troop_at(monkeys@, counts@) == after_rounds(habits, start, round as nat, worried),
        decreases rounds - round,
    {
        proof {
            lemma_after_rounds(habits, start, round as nat, (round + 1) as nat, worried);
            lemma_after_rounds(habits, start, (round + 1) as nat, rounds as nat, worried);
            let now = troop_at(monkeys@, counts@);
            let next = after_rounds(habits, start, (round + 1) as nat, worried);
            assert(next == after_turns(
                habits,
                now,
                habits.len(),
                worried,
                divisor_product(habits) as int,
            ));
            assert(monkeys@.len() == habits.len());
            assert forall|j: int| 0 <= j < monkeys@.len() implies (#[trigger] next.counts[j])
                <= u64::MAX by {
                assert(next.counts[j] <= last.counts[j]);
            }
        }
        do_round(&mut monkeys, worried, &mut counts);
        round += 1;
    }
    let ghost tally = last.counts;
    let mut a: u64 = 0;
    let mut b: u64 = 0;
    let mut i: usize = 0;
    assert(tally.take(0).len() == 0);
    while i < counts.len()
        invariant
            i <= counts@.len(),
            counts@.map_values(|c: u64| c as nat) == tally,
            top_two(tally.take(i as int)) == (a as nat, b as nat),
        decreases counts@.len() - i,
    {
        let v = counts[i];
        proof {
            assert(tally.take(i + 1).drop_last() == tally.take(i as int));
            assert(tally.take(i + 1).last() == v);
        }
        if v > a {
            b = a;
            a = v;
        } else if v > b {
            b = v;
        }
        i += 1;
    }
    assert(tally.take(i as int) == tally);
    let first = if a == 0 {
        1
    } else {
        a
    };
    let second = if b == 0 {
        1
    } else {
        b
    };
    first * second
}

/// The level of monkey business after 20 rounds in which your worry is
/// divided by three after each inspection.
pub fn star_one(monkeys: Vec<Monkey>) -> (r: u64)
    requires
        playable(monkeys@, 20, false),
    ensures
        r == business(after_rounds(habits_of(monkeys@), troop_of(monkeys@), 20, false).counts),
{
    solve(monkeys, 20, false)
}

/// The level of monkey business after 10000 rounds in which nothing
/// relieves your worry.
pub fn star_two(monkeys: Vec<Monkey>) -> (r: u64)
    requires
        playable(monkeys@, 10000, true),
    ensures
        r == business(after_rounds(habits_of(monkeys@), troop_of(monkeys@), 10000, true).counts),
{
    solve(monkeys, 10_000, true)
}

} // verus!
