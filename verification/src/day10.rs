use crate::iters::{chunk_indices, runs_of, span};
use crate::text::{entries, entries_of, integer_of, parse_i64, string_of, to_chars, words, words_of};
use vstd::prelude::*;

verus! {

/// The registers of the machine.
#[derive(Debug, Clone, Copy, PartialEq, Eq, Structural)]
pub enum Register {
    X,
}

/// An instruction.
#[derive(Debug, Clone, Copy)]
pub enum Op {
    NOOP,
    Add(Register, i64),
}

/// The greatest operand, by absolute value, that the signal strengths are
/// computed for.
pub const WIDEST: i64 = 0x7fff_ffff;

impl Op {
    /// Number of cycles the instruction takes.
    pub open spec fn spec_cycles(self) -> nat {
        match self {
            Op::NOOP => 1,
            Op::Add(..) => 2,
        }
    }

    /// Number of cycles the instruction takes.
    pub fn cycles(&self) -> (r: u64)
        ensures
            r == self.spec_cycles(),
    {
        match self {
            Op::NOOP => 1,
            Op::Add(..) => 2,
        }
    }

    /// What the instruction adds to the register.
    pub open spec fn addend(self) -> int {
        match self {
            Op::NOOP => 0,
            Op::Add(_, v) => v as int,
        }
    }
}

/// The machine between two cycles, as far as its behaviour goes: the
/// index of the instruction under way, the cycles spent on it, and the
/// register.
pub struct Cpu {
    pub ip: nat,
    pub op_cycle: nat,
    pub x: int,
}

/// The machine before the first cycle.
pub open spec fn cpu_at_start() -> Cpu {
    Cpu { ip: 0, op_cycle: 0, x: 1 }
}

/// The machine one cycle later: once an instruction has had its cycles it
/// takes effect, and the next begins.
pub open spec fn after_tick(ops: Seq<Op>, c: Cpu) -> Cpu {
    if c.op_cycle + 1 == ops[c.ip as int].spec_cycles() {
        Cpu { ip: c.ip + 1, op_cycle: 0, x: c.x + ops[c.ip as int].addend() }
    } else {
        Cpu { ip: c.ip, op_cycle: c.op_cycle + 1, x: c.x }
    }
}

/// The machine after `n` cycles.
pub open spec fn after_ticks(ops: Seq<Op>, n: nat) -> Cpu
    decreases n,
{
    if n == 0 {
        cpu_at_start()
    } else {
        after_tick(ops, after_ticks(ops, (n - 1) as nat))
    }
}

/// The program lasts for `n` cycles: in each of them an instruction is
/// under way.
pub open spec fn lasts(ops: Seq<Op>, n: nat) -> bool {
    forall|k: nat| k < n ==> (#[trigger] after_ticks(ops, k)).ip < ops.len()
}

/// No operand is wider than [`WIDEST`].
pub open spec fn operands_fit(ops: Seq<Op>) -> bool {
    forall|i: int| 0 <= i < ops.len() ==> -WIDEST <= (#[trigger] ops[i]).addend() <= WIDEST
}

/// A running machine.
pub struct Machine {
    pub ip: usize,
    pub cycle_count: u64,
    pub op_cycle: u64,
    pub operations: Vec<Op>,
    pub x: i64,
}

impl View for Machine {
    type V = Cpu;

    open spec fn view(&self) -> Cpu {
        Cpu { ip: self.ip as nat, op_cycle: self.op_cycle as nat, x: self.x as int }
    }
}

/// After `n` cycles of a program that lasts that long, the register is
/// at most `n` operands away from one.
pub proof fn lemma_register_bound(ops: Seq<Op>, n: nat)
    requires
        lasts(ops, n),
        operands_fit(ops),
    ensures
        -1 - n * WIDEST <= after_ticks(ops, n).x <= 1 + n * WIDEST,
        after_ticks(ops, n).op_cycle < 2,
        after_ticks(ops, n).ip <= ops.len(),
    decreases n,
{
    if n > 0 {
        assert(lasts(ops, (n - 1) as nat));
        lemma_register_bound(ops, (n - 1) as nat);
        let before = after_ticks(ops, (n - 1) as nat);
        assert(before.ip < ops.len());
        assert(-WIDEST <= ops[before.ip as int].addend() <= WIDEST);
    }
}

impl Machine {
    /// A machine about to run `operations`.
    pub fn new(operations: Vec<Op>) -> (m: Self)
        ensures
            m@ == cpu_at_start(),
            m.operations == operations,
            m.cycle_count == 0,
    {
        Self { ip: 0, cycle_count: 0, op_cycle: 0, operations, x: 1 }
    }

    /// The value of a register.
    pub fn register(&self, reg: Register) -> (r: i64)
        ensures
            r == self.x,
    {
        match reg {
            Register::X => self.x,
        }
    }

    /// A register, to be written to.
    pub fn register_mut(&mut self, reg: Register) -> (r: &mut i64)
        ensures
            *r == old(self).x,
            *final(self) == (Machine { x: *final(r), ..*old(self) }),
    {
        match reg {
            Register::X => &mut self.x,
        }
    }

    /// Lets the instruction under way take effect.
    pub fn apply(&mut self)
        requires
            old(self).ip < old(self).operations@.len(),
            i64::MIN <= old(self).x + old(self).operations@[old(self).ip as int].addend() <= i64::MAX,
        ensures
            *final(self) == (Machine {
                x: (old(self).x + old(self).operations@[old(self).ip as int].addend()) as i64,
                ..*old(self)
            }),
    {
        match self.operations[self.ip] {
            Op::NOOP => {},
            Op::Add(reg, value) => {
                let r = self.register_mut(reg);
                *r = *r + value;
            },
        }
    }

    /// Runs the machine for one cycle.
    pub fn tick(&mut self)
        requires
            old(self).ip < old(self).operations@.len(),
            old(self).cycle_count < u64::MAX,
            old(self).op_cycle < 2,
            i64::MIN <= old(self).x + old(self).operations@[old(self).ip as int].addend() <= i64::MAX,
        ensures
            final(self)@ == after_tick(old(self).operations@, old(self)@),
            final(self).operations == old(self).operations,
            final(self).cycle_count == old(self).cycle_count + 1,
    {
        self.op_cycle += 1;
        self.cycle_count += 1;
        if self.op_cycle == self.operations[self.ip].cycles() {
            self.apply();
            assert(self.ip < self.operations.len());
            self.ip += 1;
            self.op_cycle = 0;
        }
    }
}

/// The instruction a line stands for: `noop`, or `addx` and an integer.
pub open spec fn op_of(line: Seq<char>) -> Option<Op> {
    let ws = words_of(line);
    if ws.len() == 0 {
        None
    } else if ws[0] == seq!['n', 'o', 'o', 'p'] {
        Some(Op::NOOP)
    } else if ws[0] == seq!['a', 'd', 'd', 'x'] && ws.len() >= 2 {
        match integer_of(ws[1]) {
            Some(v) => Some(Op::Add(Register::X, v)),
            None => None,
        }
    } else {
        None
    }
}

/// Whether `word` is made of the four characters given.
fn is_word(word: &[char], a: char, b: char, c: char, d: char) -> (r: bool)
    ensures
        r == (word@ == seq![a, b, c, d]),
{
    let r = word.len() == 4 && word[0] == a && word[1] == b && word[2] == c && word[3] == d;
    proof {
        if r {
            assert(word@ =~= seq![a, b, c, d]);
        } else if word@.len() == 4 {
            assert(seq![a, b, c, d][0] == a);
            assert(seq![a, b, c, d][1] == b);
            assert(seq![a, b, c, d][2] == c);
            assert(seq![a, b, c, d][3] == d);
        } else {
            assert(seq![a, b, c, d].len() == 4);
        }
    }
    r
}

/// Reads an instruction.
pub fn parse_op(line: &[char]) -> (r: Option<Op>)
    ensures
        r == op_of(line@),
{
    let ws = words(line);
    if ws.len() == 0 {
        return None;
    }
    if is_word(ws[0], 'n', 'o', 'o', 'p') {
        Some(Op::NOOP)
    } else if is_word(ws[0], 'a', 'd', 'd', 'x') && ws.len() >= 2 {
        match parse_i64(ws[1]) {
            Some(v) => Some(Op::Add(Register::X, v)),
            None => None,
        }
    } else {
        None
    }
}

/// Every entry of the text is an instruction.
pub open spec fn readable(s: Seq<char>) -> bool {
    forall|i: int| 0 <= i < entries_of(s).len() ==> op_of(#[trigger] entries_of(s)[i]) is Some
}

/// The program of a text: an instruction for each entry.
pub open spec fn program_of(s: Seq<char>) -> Seq<Op> {
    entries_of(s).map_values(|line: Seq<char>| op_of(line)->0)
}

/// Reads the program of a text, or nothing where an entry is no
/// instruction.
pub fn parse(input: &str) -> (r: Option<Vec<Op>>)
    ensures
        r is Some <==> readable(input@),
        r matches Some(v) ==> v@ == program_of(input@),
{
    let chars = to_chars(input);
    let es = entries(chars.as_slice());
    let ghost all = entries_of(input@);
    let mut v: Vec<Op> = Vec::new();
    let mut i: usize = 0;
    while i < es.len()
        invariant
            i <= es@.len(),
            es@.len() == all.len(),
            all == entries_of(input@),
            forall|j: int| 0 <= j < es@.len() ==> (#[trigger] es@[j])@ == all[j],
            v@.len() == i,
            forall|j: int| 0 <= j < i ==> op_of(#[trigger] all[j]) == Some(v@[j]),
        decreases es@.len() - i,
    {
        match parse_op(es[i]) {
            None => {
                assert(op_of(all[i as int]) is None);
                return None;
            },
            Some(op) => {
                v.push(op);
            },
        }
        i += 1;
    }
    assert(v@ =~= program_of(input@));
    Some(v)
}

/// Sum of the signal strengths of the cycles up to `n` whose number is 20
/// more than a multiple of 40: the number of the cycle times the value of
/// the register during it.
pub open spec fn strength_sum(ops: Seq<Op>, n: nat) -> int
    decreases n,
{
    if n == 0 {
        0
    } else {
        strength_sum(ops, (n - 1) as nat) + if n % 40 == 20 {
            n * after_ticks(ops, (n - 1) as nat).x
        } else {
            0
        }
    }
}

/// Number of cycles that count for the signal strengths.
pub const WATCHED: u64 = 220;

/// No signal strength of a watched cycle is greater, by absolute value.
pub const STRONGEST: i64 = 103_938_208_515_020;

/// The sum of the signal strengths is bounded by the cycles and the
/// operands.
pub proof fn lemma_strength_sum_bound(ops: Seq<Op>, n: nat)
    requires
        lasts(ops, n),
        operands_fit(ops),
        n <= WATCHED,
    ensures
        -n * STRONGEST <= strength_sum(ops, n) <= n * STRONGEST,
    decreases n,
{
    if n > 0 {
        assert(lasts(ops, (n - 1) as nat));
        lemma_strength_sum_bound(ops, (n - 1) as nat);
        lemma_register_bound(ops, (n - 1) as nat);
        let x = after_ticks(ops, (n - 1) as nat).x;
        assert(-103_938_208_515_020 <= n * x <= 103_938_208_515_020) by (nonlinear_arith)
            requires
                0 < n <= 220,
                -1 - (n - 1) * 0x7fff_ffff <= x <= 1 + (n - 1) * 0x7fff_ffff,
        ;
    }
}

/// Sum of the signal strengths during the cycles 20, 60, 100, 140, 180
/// and 220 of the program.
pub fn signal_strengths(operations: Vec<Op>) -> (r: i64)
    requires
        lasts(operations@, WATCHED as nat),
        operands_fit(operations@),
    ensures
        r == strength_sum(operations@, WATCHED as nat),
{
    let ghost ops = operations@;
    let mut machine = Machine::new(operations);
    let mut result: i64 = 0;
    let mut c: u64 = 1;
    while c <= 220
        invariant
            1 <= c <= 221,
            machine.operations@ == ops,
            lasts(ops, WATCHED as nat),
            operands_fit(ops),
            machine@ == after_ticks(ops, (c - 1) as nat),
            machine.cycle_count == c - 1,
            result == strength_sum(ops, (c - 1) as nat),
        decreases 221 - c,
    {
        proof {
            assert(lasts(ops, (c - 1) as nat));
            assert(lasts(ops, c as nat));
            lemma_register_bound(ops, (c - 1) as nat);
            lemma_strength_sum_bound(ops, (c - 1) as nat);
            lemma_strength_sum_bound(ops, c as nat);
            assert(after_ticks(ops, (c - 1) as nat).ip < ops.len());
            assert(-WIDEST <= ops[machine.ip as int].addend() <= WIDEST);
        }
        if c % 40 == 20 {
            let x = machine.register(Register::X);
            assert(-103_938_208_515_020 <= x * c <= 103_938_208_515_020) by (nonlinear_arith)
                requires
                    0 < c <= 220,
                    -1 - (c - 1) * 0x7fff_ffff <= x <= 1 + (c - 1) * 0x7fff_ffff,
            ;
            assert(x * c == c * x) by (nonlinear_arith);
            result += x * (c as i64);
        }
        machine.tick();
        c += 1;
    }
    result
}

/// Sum of the signal strengths during the cycles 20, 60, 100, 140, 180
/// and 220 of the program in `input`.
pub fn star_one(input: &str) -> (r: i64)
    requires
        readable(input@),
        lasts(program_of(input@), WATCHED as nat),
        operands_fit(program_of(input@)),
    ensures
        r == strength_sum(program_of(input@), WATCHED as nat),
{
    match parse(input) {
        Some(operations) => signal_strengths(operations),
        None => vstd::pervasive::unreached(),
    }
}

/// Number of pixels in a row of the screen.
pub const ACROSS: usize = 40;

/// Number of pixels on the screen.
pub const PIXELS: usize = 240;

/// The pixel drawn during cycle `c`, counted from zero: lit where the
/// sprite, three pixels wide around the register, covers the place in
/// the row that is being drawn.
pub open spec fn pixel(ops: Seq<Op>, c: nat) -> char {
    let x = after_ticks(ops, c).x;
    let coord = (c % 40) as int;
    if x - 1 <= coord <= x + 1 {
        '#'
    } else {
        '.'
    }
}

/// What the screen shows: six rows of forty pixels, a line feed after
/// each.
pub open spec fn screen(ops: Seq<Op>) -> Seq<char> {
    Seq::new(
        246,
        |k: int|
            if k % 41 == 40 {
                '\n'
            } else {
                pixel(ops, ((k / 41) * 40 + k % 41) as nat)
            },
    )
}

/// The pixels that the program draws, in the order of the cycles.
pub fn draw(operations: Vec<Op>) -> (pixels: Vec<char>)
    requires
        lasts(operations@, PIXELS as nat),
        operands_fit(operations@),
    ensures
        pixels@.len() == PIXELS,
        forall|c: int| 0 <= c < PIXELS ==> #[trigger] pixels@[c] == pixel(operations@, c as nat),
{
    let ghost ops = operations@;
    let mut machine = Machine::new(operations);
    let mut pixels: Vec<char> = Vec::new();
    let mut c: u64 = 0;
    while c < 240
        invariant
            c <= 240,
            machine.operations@ == ops,
            lasts(ops, PIXELS as nat),
            operands_fit(ops),
            machine@ == after_ticks(ops, c as nat),
            machine.cycle_count == c,
            pixels@.len() == c,
            forall|k: int| 0 <= k < c ==> #[trigger] pixels@[k] == pixel(ops, k as nat),
        decreases 240 - c,
    {
        proof {
            assert(lasts(ops, c as nat));
            lemma_register_bound(ops, c as nat);
            assert(after_ticks(ops, c as nat).ip < ops.len());
            assert(-WIDEST <= ops[machine.ip as int].addend() <= WIDEST);
            assert(c * WIDEST <= 240 * WIDEST) by (nonlinear_arith)
                requires
                    c <= 240,
            ;
        }
        let coord = (c % 40) as i64;
        let x = machine.register(Register::X);
        let lit = coord >= x - 1 && coord <= x + 1;
        pixels.push(if lit {
            '#'
        } else {
            '.'
        });
        machine.tick();
        c += 1;
    }
    pixels
}

/// What the screen shows when the program has run.
pub fn render(operations: Vec<Op>) -> (s: String)
    requires
        lasts(operations@, PIXELS as nat),
        operands_fit(operations@),
    ensures
        s@ == screen(operations@),
{
    let ghost ops = operations@;
    let pixels = draw(operations);
    let rows = chunk_indices(PIXELS, ACROSS);
    let ghost runs = runs_of(PIXELS as int, ACROSS as int);
    proof {
        assert(rows.deep_view() == runs);
        assert(runs.len() == 6);
        assert(rows@.len() == 6);
    }
    let mut out: Vec<char> = Vec::new();
    let mut i: usize = 0;
    while i < rows.len()
        invariant
            i <= rows@.len(),
            rows@.len() == 6,
            rows.deep_view() == runs_of(PIXELS as int, ACROSS as int),
            pixels@.len() == PIXELS,
            forall|c: int| 0 <= c < PIXELS ==> #[trigger] pixels@[c] == pixel(ops, c as nat),
            out@.len() == 41 * i,
            forall|k: int| 0 <= k < out@.len() ==> #[trigger] out@[k] == screen(ops)[k],
        decreases rows@.len() - i,
    {
        let row = &rows[i];
        proof {
            assert(rows.deep_view()[i as int] == row@);
            assert(runs_of(PIXELS as int, ACROSS as int).len() == 6);
            assert(runs_of(PIXELS as int, ACROSS as int)[i as int] == span(i * 40, (i + 1) * 40));
        }
        let mut j: usize = 0;
        while j < row.len()
            invariant
                j <= row@.len(),
                i < 6,
                row@ == span(i * 40, (i + 1) * 40),
                pixels@.len() == PIXELS,
                forall|c: int| 0 <= c < PIXELS ==> #[trigger] pixels@[c] == pixel(ops, c as nat),
                out@.len() == 41 * i + j,
                forall|k: int| 0 <= k < out@.len() ==> #[trigger] out@[k] == screen(ops)[k],
            decreases row@.len() - j,
        {
            let at = row[j];
            assert(at == i * 40 + j);
            out.push(pixels[at]);
            j += 1;
        }
        out.push('\n');
        i += 1;
    }
    assert(out@ =~= screen(ops));
    string_of(&out)
}

/// What the screen shows when the program in `input` has run.
pub fn star_two(input: &str) -> (s: String)
    requires
        readable(input@),
        lasts(program_of(input@), PIXELS as nat),
        operands_fit(program_of(input@)),
    ensures
        s@ == screen(program_of(input@)),
{
    match parse(input) {
        Some(operations) => render(operations),
        None => vstd::pervasive::unreached(),
    }
}

} // verus!
