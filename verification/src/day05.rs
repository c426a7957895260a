use crate::text::{
    after_prefix, around_space, entries, entries_of, first_pair, is_digit, lemma_first_pair_is, lines, lines_of,
    parse_usize, size_of,
    split_at_space, string_of, strip_prefix, to_chars, trim, trim_start, trimmed, trimmed_start,
};
use vstd::prelude::*;
use vstd::slice::slice_subrange;

verus! {

/// How a crane moves crates: one at a time, or all at once.
#[derive(Debug, Clone, Copy, PartialEq, Eq, Structural)]
pub enum Kind {
    CrateMover9000,
    CrateMover9001,
}

/// Number of stacks that have a name: the digits `0` to `9`.
pub const STACKS: usize = 10;

/// The stacks of crates, each listed from the bottom, and the crane.
#[derive(Debug)]
pub struct State {
    pub stacks: Vec<Vec<char>>,
    /// For each stack, whether the drawing showed it: only such a stack
    /// can give or take crates.
    pub shown: Vec<bool>,
    pub kind: Kind,
}

/// An order to move `count` crates from one stack to another.
#[derive(Debug, Clone, Copy)]
pub struct Command {
    pub destination: usize,
    pub source: usize,
    pub count: usize,
}

/// The crates of each stack, from the bottom.
pub open spec fn crates_of(stacks: Seq<Vec<char>>) -> Seq<Seq<char>> {
    stacks.map_values(|s: Vec<char>| s@)
}

/// The command names stacks that exist, and its source holds the crates
/// to be moved.
pub open spec fn can_apply(stacks: Seq<Seq<char>>, c: Command) -> bool {
    c.source < stacks.len() && c.destination < stacks.len() && c.count <= stacks[c.source as int].len()
}

/// The stacks once the command is carried out: the crates leave the top
/// of the source and arrive on the destination, one at a time, so that
/// their order is reversed, or all at once.
pub open spec fn moved(stacks: Seq<Seq<char>>, c: Command, kind: Kind) -> Seq<Seq<char>> {
    let from = stacks[c.source as int];
    let kept = from.len() - c.count;
    let items = from.skip(kept);
    let lifted = stacks.update(c.source as int, from.take(kept));
    lifted.update(
        c.destination as int,
        lifted[c.destination as int] + if kind == Kind::CrateMover9000 {
            items.reverse()
        } else {
            items
        },
    )
}

/// The stacks once the first `n` commands are carried out.
pub open spec fn after_commands(stacks: Seq<Seq<char>>, cs: Seq<Command>, kind: Kind, n: nat) -> Seq<Seq<char>>
    decreases n,
{
    if n == 0 {
        stacks
    } else {
        moved(after_commands(stacks, cs, kind, (n - 1) as nat), cs[n - 1], kind)
    }
}

/// The command names stacks that the drawing shows: stacks that hold a
/// crate before the first command.
pub open spec fn names_shown(stacks: Seq<Seq<char>>, c: Command) -> bool {
    &&& c.source < stacks.len() && stacks[c.source as int].len() > 0
    &&& c.destination < stacks.len() && stacks[c.destination as int].len() > 0
}

/// Each command names stacks that the drawing shows, and can be applied
/// when its turn comes.
pub open spec fn can_apply_all(stacks: Seq<Seq<char>>, cs: Seq<Command>, kind: Kind) -> bool {
    forall|n: nat|
        n < cs.len() ==> names_shown(stacks, cs[n as int]) && can_apply(
            #[trigger] after_commands(stacks, cs, kind, n),
            cs[n as int],
        )
}

/// The crates on top of the first `n` stacks after stack 0, in the order
/// of the stacks; an empty stack adds nothing.
pub open spec fn tops(stacks: Seq<Seq<char>>, n: nat) -> Seq<char>
    decreases n,
{
    if n == 0 {
        seq![]
    } else if n < stacks.len() && stacks[n as int].len() > 0 {
        tops(stacks, (n - 1) as nat).push(stacks[n as int].last())
    } else {
        tops(stacks, (n - 1) as nat)
    }
}

/// Carrying out a command keeps the number of stacks.
pub proof fn lemma_after_commands_len(stacks: Seq<Seq<char>>, cs: Seq<Command>, kind: Kind, n: nat)
    requires
        can_apply_all(stacks, cs, kind),
        n <= cs.len(),
    ensures
        after_commands(stacks, cs, kind, n).len() == stacks.len(),
    decreases n,
{
    if n > 0 {
        lemma_after_commands_len(stacks, cs, kind, (n - 1) as nat);
        assert(can_apply(after_commands(stacks, cs, kind, (n - 1) as nat), cs[n - 1]));
    }
}

impl State {
    /// Carries out a command.
    pub fn apply(&mut self, command: Command)
        requires
            can_apply(crates_of(old(self).stacks@), command),
            old(self).shown@.len() == old(self).stacks@.len(),
            old(self).shown@[command.source as int],
            old(self).shown@[command.destination as int],
        ensures
            final(self).kind == old(self).kind,
            final(self).shown == old(self).shown,
            final(self).stacks@.len() == old(self).stacks@.len(),
            crates_of(final(self).stacks@) == moved(crates_of(old(self).stacks@), command, old(self).kind),
    {
        let ghost before = crates_of(self.stacks@);
        let ghost from = before[command.source as int];
        let kept = self.stacks[command.source].len() - command.count;
        let mut items: Vec<char> = Vec::new();
        let mut i: usize = kept;
        while i < self.stacks[command.source].len()
            invariant
                kept <= i <= from.len(),
                self.shown == old(self).shown,
                self.stacks@.len() == old(self).stacks@.len(),
                command.source < self.stacks@.len(),
                self.stacks@[command.source as int]@ == from,
                items@ == from.subrange(kept as int, i as int),
            decreases from.len() - i,
        {
            items.push(self.stacks[command.source][i]);
            assert(items@ =~= from.subrange(kept as int, i + 1));
            i += 1;
        }
        assert(items@ == from.skip(kept as int));
        self.stacks[command.source].truncate(kept);
        let ghost lifted = crates_of(self.stacks@);
        assert(lifted =~= before.update(command.source as int, from.take(kept as int)));
        let ghost base = lifted[command.destination as int];
        assert(base + Seq::<char>::empty() == base);
        assert(items@.reverse().take(0) =~= Seq::<char>::empty());
        assert(items@.take(0) =~= Seq::<char>::empty());
        assert(lifted =~= lifted.update(command.destination as int, base));
        match self.kind {
            Kind::CrateMover9000 => {
                let mut j: usize = items.len();
                while j > 0
                    invariant
                        j <= items@.len(),
                        command.destination < self.stacks@.len(),
                        lifted.len() == self.stacks@.len(),
                        self.kind == old(self).kind,
                        self.shown == old(self).shown,
                        self.stacks@.len() == old(self).stacks@.len(),
                        crates_of(self.stacks@) == lifted.update(
                            command.destination as int,
                            base + items@.reverse().take(items@.len() - j),
                        ),
                    decreases j,
                {
                    j -= 1;
                    let ghost now = crates_of(self.stacks@);
                    self.stacks[command.destination].push(items[j]);
                    proof {
                        let r = items@.reverse();
                        assert(r.take(items@.len() - j) =~= r.take(items@.len() - j - 1).push(items@[j as int]));
                        assert(now[command.destination as int] == base + r.take(items@.len() - j - 1));
                        assert(crates_of(self.stacks@) =~= now.update(
                            command.destination as int,
                            now[command.destination as int].push(items@[j as int]),
                        ));
                        assert(now[command.destination as int].push(items@[j as int]) =~= base + r.take(
                            items@.len() - j,
                        ));
                        assert(crates_of(self.stacks@) =~= lifted.update(
                            command.destination as int,
                            base + r.take(items@.len() - j),
                        ));
                    }
                }
                assert(items@.reverse().take(items@.len() as int) == items@.reverse());
            },
            Kind::CrateMover9001 => {
                let mut j: usize = 0;
                while j < items.len()
                    invariant
                        j <= items@.len(),
                        command.destination < self.stacks@.len(),
                        lifted.len() == self.stacks@.len(),
                        self.kind == old(self).kind,
                        self.shown == old(self).shown,
                        self.stacks@.len() == old(self).stacks@.len(),
                        crates_of(self.stacks@) == lifted.update(
                            command.destination as int,
                            base + items@.take(j as int),
                        ),
                    decreases items@.len() - j,
                {
                    let ghost now = crates_of(self.stacks@);
                    self.stacks[command.destination].push(items[j]);
                    proof {
                        assert(items@.take(j + 1) =~= items@.take(j as int).push(items@[j as int]));
                        assert(now[command.destination as int] == base + items@.take(j as int));
                        assert(crates_of(self.stacks@) =~= now.update(
                            command.destination as int,
                            now[command.destination as int].push(items@[j as int]),
                        ));
                        assert(now[command.destination as int].push(items@[j as int]) =~= base + items@.take(
                            j + 1,
                        ));
                        assert(crates_of(self.stacks@) =~= lifted.update(
                            command.destination as int,
                            base + items@.take(j + 1),
                        ));
                    }
                    j += 1;
                }
                assert(items@.take(items@.len() as int) == items@);
            },
        }
    }

    /// The crates on top of the stacks 1 to 9, as a word.
    pub fn top_of_stacks(&self) -> (s: String)
        ensures
            s@ == tops(crates_of(self.stacks@), 9),
    {
        let mut out: Vec<char> = Vec::new();
        let mut idx: usize = 1;
        while idx <= 9
            invariant
                1 <= idx <= 10,
                out@ == tops(crates_of(self.stacks@), (idx - 1) as nat),
            decreases 10 - idx,
        {
            if idx < self.stacks.len() {
                assert(crates_of(self.stacks@)[idx as int] == self.stacks@[idx as int]@);
                let stack = &self.stacks[idx];
                if stack.len() > 0 {
                    out.push(stack[stack.len() - 1]);
                }
            }
            idx += 1;
        }
        string_of(&out)
    }
}

/// A letter of the Latin alphabet.
pub open spec fn is_letter(c: char) -> bool {
    ('a' <= c <= 'z') || ('A' <= c <= 'Z')
}

/// The stacks with the crates of the first `n` columns of a row of the
/// drawing put on top: a letter is a crate, and the digit below it in the
/// line of `labels` names its stack.
pub open spec fn with_row(stacks: Seq<Seq<char>>, row: Seq<char>, labels: Seq<char>, n: nat) -> Seq<Seq<char>>
    decreases n,
{
    if n == 0 {
        stacks
    } else {
        let before = with_row(stacks, row, labels, (n - 1) as nat);
        let c = row[n - 1];
        if is_letter(c) {
            let id = (labels[n - 1] as u32 - 48) as int;
            before.update(id, before[id].push(c))
        } else {
            before
        }
    }
}

/// The stacks that the lowest `n` rows of a drawing show.
pub open spec fn with_rows(rows: Seq<Seq<char>>, labels: Seq<char>, n: nat) -> Seq<Seq<char>>
    decreases n,
{
    if n == 0 {
        Seq::new(STACKS as nat, |i: int| Seq::<char>::empty())
    } else {
        let row = rows[rows.len() - n];
        with_row(with_rows(rows, labels, (n - 1) as nat), row, labels, row.len())
    }
}

/// Below every crate of the drawing stands the digit that names its
/// stack.
pub open spec fn labelled(rows: Seq<Seq<char>>, labels: Seq<char>) -> bool {
    forall|y: int, x: int|
        0 <= y < rows.len() && 0 <= x < rows[y].len() && is_letter(#[trigger] rows[y][x]) ==> x
            < labels.len() && is_digit(labels[x])
}

/// The stacks that a drawing shows: its last line names the stacks, the
/// lines above hold the crates.
pub open spec fn stacks_of(drawing: Seq<char>) -> Seq<Seq<char>> {
    let ls = lines_of(drawing);
    with_rows(ls.drop_last(), ls.last(), (ls.len() - 1) as nat)
}

/// The drawing has a line of labels, and every crate has its label.
pub open spec fn drawing_ok(drawing: Seq<char>) -> bool {
    let ls = lines_of(drawing);
    ls.len() > 0 && labelled(ls.drop_last(), ls.last())
}

/// The marks tell, for each stack, whether it holds a crate.
pub open spec fn shown_of(stacks: Seq<Seq<char>>, shown: Seq<bool>) -> bool {
    shown.len() == stacks.len() && forall|i: int| 0 <= i < shown.len() ==> #[trigger] shown[i] == (stacks[i].len() > 0)
}

/// Reads the stacks from a drawing, or nothing where the drawing has no
/// line of labels or a crate has no label.
pub fn read_state(drawing: &[char]) -> (r: Option<State>)
    ensures
        r is Some <==> drawing_ok(drawing@),
        r matches Some(state) ==> {
            &&& crates_of(state.stacks@) == stacks_of(drawing@)
            &&& state.stacks@.len() == STACKS
            &&& shown_of(stacks_of(drawing@), state.shown@)
            &&& state.kind == Kind::CrateMover9000
        },
{
    let ls = lines(drawing);
    let ghost all = lines_of(drawing@);
    if ls.len() == 0 {
        return None;
    }
    let ghost rows = all.drop_last();
    let ghost names = all.last();
    let labels = ls[ls.len() - 1];
    let count = ls.len() - 1;
    let mut stacks: Vec<Vec<char>> = Vec::new();
    let mut shown: Vec<bool> = Vec::new();
    let mut k: usize = 0;
    while k < STACKS
        invariant
            k <= STACKS,
            stacks@.len() == k,
            shown@.len() == k,
            forall|i: int| 0 <= i < k ==> (#[trigger] stacks@[i])@ == Seq::<char>::empty(),
            forall|i: int| 0 <= i < k ==> !#[trigger] shown@[i],
        decreases STACKS - k,
    {
        stacks.push(Vec::new());
        shown.push(false);
        k += 1;
    }
    assert(shown_of(crates_of(stacks@), shown@));
    assert(crates_of(stacks@) =~= with_rows(rows, names, 0));
    let mut n: usize = 0;
    while n < count
        invariant
            n <= count,
            count == rows.len(),
            ls@.len() == count + 1,
            all.len() == ls@.len(),
            all == lines_of(drawing@),
            rows == all.drop_last(),
            names == all.last(),
            labels@ == names,
            forall|j: int| 0 <= j < ls@.len() ==> (#[trigger] ls@[j])@ == all[j],
            forall|y: int, x: int|
                count - n <= y < count && 0 <= x < rows[y].len() && is_letter(#[trigger] rows[y][x]) ==> x
                    < names.len() && is_digit(names[x]),
            stacks@.len() == STACKS,
            shown_of(crates_of(stacks@), shown@),
            crates_of(stacks@) == with_rows(rows, names, n as nat),
        decreases count - n,
    {
        let row = ls[count - 1 - n];
        let ghost r = rows[rows.len() - (n + 1)];
        assert(row@ == r) by {
            assert(rows[count - 1 - n] == all[count - 1 - n]);
        }
        let ghost base = crates_of(stacks@);
        let mut x: usize = 0;
        while x < row.len()
            invariant
                x <= row@.len(),
                row@ == r,
                r == rows[count - 1 - n],
                n < count,
                count == rows.len(),
                all == lines_of(drawing@),
                rows == all.drop_last(),
                names == all.last(),
                all.len() == count + 1,
                labels@ == names,
                forall|i: int| 0 <= i < x && is_letter(#[trigger] r[i]) ==> i < names.len() && is_digit(names[i]),
                base.len() == STACKS,
                stacks@.len() == STACKS,
                shown_of(crates_of(stacks@), shown@),
                crates_of(stacks@) == with_row(base, r, names, x as nat),
            decreases row@.len() - x,
        {
            let c = row[x];
            if ('a' <= c && c <= 'z') || ('A' <= c && c <= 'Z') {
                assert(is_letter(r[x as int]));
                if x >= labels.len() || !('0' <= labels[x] && labels[x] <= '9') {
                    assert(is_letter(rows[count - 1 - n][x as int]));
                    assert(!labelled(rows, names));
                    return None;
                }
                let id = (labels[x] as u32 - 48) as usize;
                let ghost now = crates_of(stacks@);
                stacks[id].push(c);
                shown.set(id, true);
                assert(crates_of(stacks@) =~= now.update(id as int, now[id as int].push(c)));
            }
            x += 1;
        }
        n += 1;
    }
    Some(State { stacks, shown, kind: Kind::CrateMover9000 })
}

/// Reads the stacks from a drawing.
pub fn parse_state(drawing: &[char]) -> (state: State)
    requires
        drawing_ok(drawing@),
    ensures
        crates_of(state.stacks@) == stacks_of(drawing@),
        state.stacks@.len() == STACKS,
        shown_of(stacks_of(drawing@), state.shown@),
        state.kind == Kind::CrateMover9000,
{
    match read_state(drawing) {
        Some(state) => state,
        None => vstd::pervasive::unreached(),
    }
}

/// The command a line stands for: `move`, a count, `from`, a stack, `to`,
/// a stack.
pub open spec fn command_of(line: Seq<char>) -> Option<Command> {
    match after_prefix(line, "move"@) {
        None => None,
        Some(r1) => match around_space(trimmed_start(r1)) {
            None => None,
            Some((count, r2)) => match after_prefix(trimmed_start(r2), "from"@) {
                None => None,
                Some(r3) => match around_space(trimmed_start(r3)) {
                    None => None,
                    Some((source, r4)) => match after_prefix(trimmed_start(r4), "to"@) {
                        None => None,
                        Some(r5) => match (size_of(count), size_of(source), size_of(trimmed(r5))) {
                            (Some(count), Some(source), Some(destination)) => Some(
                                Command { destination, source, count },
                            ),
                            _ => None,
                        },
                    },
                },
            },
        },
    }
}

/// Reads a command.
pub fn parse_command(line: &[char]) -> (r: Option<Command>)
    ensures
        r == command_of(line@),
{
    let r1 = match strip_prefix(line, "move") {
        Some(r) => r,
        None => {
            return None;
        },
    };
    let (count, r2) = match split_at_space(trim_start(r1)) {
        Some(p) => p,
        None => {
            return None;
        },
    };
    let r3 = match strip_prefix(trim_start(r2), "from") {
        Some(r) => r,
        None => {
            return None;
        },
    };
    let (source, r4) = match split_at_space(trim_start(r3)) {
        Some(p) => p,
        None => {
            return None;
        },
    };
    let r5 = match strip_prefix(trim_start(r4), "to") {
        Some(r) => r,
        None => {
            return None;
        },
    };
    match (parse_usize(count), parse_usize(source), parse_usize(trim(r5))) {
        (Some(count), Some(source), Some(destination)) => Some(Command { destination, source, count }),
        _ => None,
    }
}

/// The drawing of a text: what precedes its first blank line.
pub open spec fn drawing_of(s: Seq<char>) -> Seq<char> {
    s.take(first_pair(s, '\n', '\n') as int)
}

/// The commands of a text: the entries behind its first blank line.
pub open spec fn commands_of(s: Seq<char>) -> Seq<Command> {
    entries_of(s.skip(first_pair(s, '\n', '\n') as int + 2)).map_values(|line: Seq<char>| command_of(line)->0)
}

/// The text has a drawing, a blank line and commands.
pub open spec fn readable(s: Seq<char>) -> bool {
    &&& first_pair(s, '\n', '\n') + 2 <= s.len()
    &&& drawing_ok(drawing_of(s))
    &&& forall|i: int|
        0 <= i < entries_of(s.skip(first_pair(s, '\n', '\n') as int + 2)).len() ==> command_of(
            #[trigger] entries_of(s.skip(first_pair(s, '\n', '\n') as int + 2))[i],
        ) is Some
}

/// Reads the stacks and the commands of a text, or nothing where the text
/// has no blank line, the drawing is at fault, or an entry behind the
/// blank line is no command.
pub fn read(input: &str, kind: Kind) -> (r: Option<(State, Vec<Command>)>)
    ensures
        r is Some <==> readable(input@),
        r matches Some(p) ==> {
            &&& crates_of(p.0.stacks@) == stacks_of(drawing_of(input@))
            &&& p.0.stacks@.len() == STACKS
            &&& shown_of(stacks_of(drawing_of(input@)), p.0.shown@)
            &&& p.0.kind == kind
            &&& p.1@ == commands_of(input@)
        },
{
    let chars = to_chars(input);
    let text = chars.as_slice();
    let mut k: usize = 0;
    while k < text.len() && !(k + 1 < text.len() && text[k] == '\n' && text[k + 1] == '\n')
        invariant
            k <= text@.len(),
            forall|i: int|
                0 <= i < k && i + 1 < text@.len() ==> !(text@[i] == '\n' && #[trigger] text@[i + 1]
                    == '\n'),
        decreases text@.len() - k,
    {
        k += 1;
    }
    proof {
        lemma_first_pair_is(text@, '\n', '\n', k as int);
    }
    if k >= text.len() {
        return None;
    }
    proof {
        assert(text@.take(k as int) == text@.subrange(0, k as int));
        assert(text@.skip(k + 2) == text@.subrange(k + 2, text@.len() as int));
    }
    let mut state = match read_state(slice_subrange(text, 0, k)) {
        Some(state) => state,
        None => {
            return None;
        },
    };
    state.kind = kind;
    let es = entries(slice_subrange(text, k + 2, text.len()));
    let ghost all = entries_of(input@.skip(first_pair(input@, '\n', '\n') as int + 2));
    let mut commands: Vec<Command> = Vec::new();
    let mut i: usize = 0;
    while i < es.len()
        invariant
            i <= es@.len(),
            es@.len() == all.len(),
            forall|j: int| 0 <= j < es@.len() ==> (#[trigger] es@[j])@ == all[j],
            all == entries_of(input@.skip(first_pair(input@, '\n', '\n') as int + 2)),
            commands@.len() == i,
            forall|j: int| 0 <= j < i ==> command_of(#[trigger] all[j]) == Some(commands@[j]),
        decreases es@.len() - i,
    {
        match parse_command(es[i]) {
            Some(c) => {
                commands.push(c);
            },
            None => {
                assert(command_of(all[i as int]) is None);
                return None;
            },
        }
        i += 1;
    }
    assert(commands@ =~= commands_of(input@));
    Some((state, commands))
}

/// Reads the stacks and the commands of a text.
pub fn parse(input: &str, kind: Kind) -> (r: (State, Vec<Command>))
    requires
        readable(input@),
    ensures
        crates_of(r.0.stacks@) == stacks_of(drawing_of(input@)),
        r.0.stacks@.len() == STACKS,
        shown_of(stacks_of(drawing_of(input@)), r.0.shown@),
        r.0.kind == kind,
        r.1@ == commands_of(input@),
{
    match read(input, kind) {
        Some(p) => p,
        None => vstd::pervasive::unreached(),
    }
}

/// The crates on top of the stacks once the commands of `input` are
/// carried out by a crane of the given kind.
pub fn solve(input: &str, kind: Kind) -> (s: String)
    requires
        readable(input@),
        can_apply_all(stacks_of(drawing_of(input@)), commands_of(input@), kind),
    ensures
        s@ == tops(
            after_commands(
                stacks_of(drawing_of(input@)),
                commands_of(input@),
                kind,
                commands_of(input@).len(),
            ),
            9,
        ),
{
    let (mut state, commands) = parse(input, kind);
    let ghost start = crates_of(state.stacks@);
    let mut i: usize = 0;
    while i < commands.len()
        invariant
            i <= commands@.len(),
            state.kind == kind,
            can_apply_all(start, commands@, kind),
            shown_of(start, state.shown@),
            state.stacks@.len() == start.len(),
            crates_of(state.stacks@) == after_commands(start, commands@, kind, i as nat),
        decreases commands@.len() - i,
    {
        assert(can_apply(after_commands(start, commands@, kind, i as nat), commands@[i as int]));
        assert(names_shown(start, commands@[i as int]));
        state.apply(commands[i]);
        i += 1;
    }
    state.top_of_stacks()
}

/// The crates on top when the crane moves one crate at a time.
pub fn star_one(input: &str) -> (s: String)
    requires
        readable(input@),
        can_apply_all(stacks_of(drawing_of(input@)), commands_of(input@), Kind::CrateMover9000),
    ensures
        s@ == tops(
            after_commands(
                stacks_of(drawing_of(input@)),
                commands_of(input@),
                Kind::CrateMover9000,
                commands_of(input@).len(),
            ),
            9,
        ),
{
    solve(input, Kind::CrateMover9000)
}

/// The crates on top when the crane moves all crates of a command at
/// once.
pub fn star_two(input: &str) -> (s: String)
    requires
        readable(input@),
        can_apply_all(stacks_of(drawing_of(input@)), commands_of(input@), Kind::CrateMover9001),
    ensures
        s@ == tops(
            after_commands(
                stacks_of(drawing_of(input@)),
                commands_of(input@),
                Kind::CrateMover9001,
                commands_of(input@).len(),
            ),
            9,
        ),
{
    solve(input, Kind::CrateMover9001)
}

} // verus!
