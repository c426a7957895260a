use crate::text::{
    after_prefix, around_space, entries, entries_of, number_of, parse_u64, split_at_space, strip_prefix, to_chars,
    trim, trimmed,
};
use vstd::prelude::*;

verus! {

/// The handle of an entry: its index in the arena.
#[derive(Debug, Clone, Copy, PartialEq, Eq, Structural)]
pub struct Idx(pub usize);

/// A store that hands out a handle for each value put into it.
#[derive(Debug)]
pub struct Arena<T> {
    pub storage: Vec<T>,
}

impl<T> Arena<T> {
    pub fn new() -> (a: Self)
        ensures
            a.storage@.len() == 0,
    {
        Self { storage: Vec::new() }
    }

    /// Stores `value` and returns its handle.
    pub fn insert(&mut self, value: T) -> (idx: Idx)
        ensures
            final(self).storage@ == old(self).storage@.push(value),
            idx.0 == old(self).storage@.len(),
    {
        let idx = Idx(self.storage.len());
        self.storage.push(value);
        idx
    }

    /// The value with the handle `index`.
    pub fn get(&self, index: Idx) -> (r: &T)
        requires
            index.0 < self.storage@.len(),
        ensures
            *r == self.storage@[index.0 as int],
    {
        &self.storage[index.0]
    }
}

/// An entry of the file system.
#[derive(Debug)]
pub enum Entry {
    Root { children: Vec<Idx> },
    Dir { name: Vec<char>, children: Vec<Idx>, parent: Idx },
    File { size: u64, name: Vec<char> },
}

/// An entry, as far as its meaning goes. A file has no children, the
/// root no name; only a directory other than the root has a parent.
pub struct Node {
    pub is_file: bool,
    pub is_root: bool,
    pub name: Seq<char>,
    pub size: u64,
    pub children: Seq<int>,
    pub parent: int,
}

/// The handles as indices.
pub open spec fn indices(handles: Seq<Idx>) -> Seq<int> {
    handles.map_values(|h: Idx| h.0 as int)
}

impl View for Entry {
    type V = Node;

    open spec fn view(&self) -> Node {
        match *self {
            Entry::Root { children } => Node {
                is_file: false,
                is_root: true,
                name: seq![],
                size: 0,
                children: indices(children@),
                parent: 0,
            },
            Entry::Dir { name, children, parent } => Node {
                is_file: false,
                is_root: false,
                name: name@,
                size: 0,
                children: indices(children@),
                parent: parent.0 as int,
            },
            Entry::File { size, name } => Node {
                is_file: true,
                is_root: false,
                name: name@,
                size,
                children: seq![],
                parent: 0,
            },
        }
    }
}

/// What the entries mean.
pub open spec fn nodes_of(storage: Seq<Entry>) -> Seq<Node> {
    storage.map_values(|e: Entry| e@)
}

impl Entry {
    /// Whether the entry is a directory, the root included.
    pub fn is_dir(&self) -> (r: bool)
        ensures
            r == !self@.is_file,
    {
        matches!(self, Entry::Dir { .. } | Entry::Root { .. })
    }

    /// Gives a directory new children.
    pub fn set_children(&mut self, new_children: Vec<Idx>)
        requires
            !old(self)@.is_file,
        ensures
            final(self)@ == (Node { children: indices(new_children@), ..old(self)@ }),
    {
        match self {
            Entry::Root { children } => {
                *children = new_children;
            },
            Entry::Dir { children, .. } => {
                *children = new_children;
            },
            Entry::File { .. } => {},
        }
    }

    /// The directory that holds this directory.
    pub fn parent(&self) -> (p: Idx)
        requires
            !self@.is_file,
            !self@.is_root,
        ensures
            p.0 == self@.parent,
    {
        match self {
            Entry::Dir { parent, .. } => *parent,
            _ => vstd::pervasive::unreached(),
        }
    }
}

/// The entry that a line of a listing stands for: `dir` and a name, or a
/// size, one character of white space, and a name.
pub open spec fn entry_of(line: Seq<char>, parent: int) -> Option<Node> {
    match after_prefix(line, "dir"@) {
        Some(name) => Some(
            Node { is_file: false, is_root: false, name: trimmed(name), size: 0, children: seq![], parent },
        ),
        None => match around_space(line) {
            None => None,
            Some((size, name)) => match number_of(size) {
                None => None,
                Some(size) => Some(
                    Node {
                        is_file: true,
                        is_root: false,
                        name: trimmed(name),
                        size,
                        children: seq![],
                        parent: 0,
                    },
                ),
            },
        },
    }
}

/// A copy of the characters.
fn copy_of(s: &[char]) -> (v: Vec<char>)
    ensures
        v@ == s@,
{
    let mut v: Vec<char> = Vec::new();
    let mut i: usize = 0;
    while i < s.len()
        invariant
            i <= s@.len(),
            v@ == s@.take(i as int),
        decreases s@.len() - i,
    {
        v.push(s[i]);
        assert(s@.take(i + 1) =~= s@.take(i as int).push(s@[i as int]));
        i += 1;
    }
    assert(s@.take(i as int) == s@);
    v
}

impl Entry {
    /// Reads an entry from a line of a listing.
    pub fn parse(s: &[char], parent: Idx) -> (r: Option<Entry>)
        ensures
            r is Some <==> entry_of(s@, parent.0 as int) is Some,
            r matches Some(e) ==> Some(e@) == entry_of(s@, parent.0 as int),
    {
        match strip_prefix(s, "dir") {
            Some(name) => {
                let e = Entry::Dir { name: copy_of(trim(name)), children: Vec::new(), parent };
                assert(indices(Seq::<Idx>::empty()) =~= seq![]);
                Some(e)
            },
            None => match split_at_space(s) {
                None => None,
                Some((size, name)) => match parse_u64(size) {
                    None => None,
                    Some(size) => Some(Entry::File { size, name: copy_of(trim(name)) }),
                },
            },
        }
    }
}

/// The children of every directory come after it in the arena.
pub open spec fn ordered(nodes: Seq<Node>) -> bool {
    forall|i: int, k: int|
        0 <= i < nodes.len() && 0 <= k < nodes[i].children.len() ==> i < (#[trigger] nodes[i].children[k])
            < nodes.len()
}

/// What the files in entry `i` and below it take up.
pub open spec fn tree_size(nodes: Seq<Node>, i: int) -> nat
    decreases nodes.len() - i, 1nat, 0nat,
{
    if i < 0 || i >= nodes.len() {
        0
    } else if nodes[i].is_file {
        nodes[i].size as nat
    } else {
        children_size(nodes, i, nodes[i].children.len())
    }
}

/// What the first `n` children of entry `i` take up.
pub open spec fn children_size(nodes: Seq<Node>, i: int, n: nat) -> nat
    decreases nodes.len() - i, 0nat, n,
{
    if n == 0 || i < 0 || i >= nodes.len() {
        0
    } else {
        let child = nodes[i].children[n - 1];
        children_size(nodes, i, (n - 1) as nat) + if i < child < nodes.len() {
            tree_size(nodes, child)
        } else {
            0
        }
    }
}

/// Whether `j` is a child of the directory `p`.
pub open spec fn is_child(nodes: Seq<Node>, p: int, j: int) -> bool {
    0 <= p < nodes.len() && !nodes[p].is_file && nodes[p].children.contains(j)
}

/// Whether entry `j` can be reached from the root, entry 0, through
/// children.
pub open spec fn reachable(nodes: Seq<Node>, j: int) -> bool
    decreases j,
{
    j == 0 || (j > 0 && exists|p: int| 0 <= p < j && reachable(nodes, p) && #[trigger] is_child(nodes, p, j))
}

/// The sizes of the first children are no more than the sizes of all.
pub proof fn lemma_children_size_grows(nodes: Seq<Node>, i: int, a: nat, b: nat)
    requires
        a <= b,
    ensures
        children_size(nodes, i, a) <= children_size(nodes, i, b),
    decreases b,
{
    if a < b {
        lemma_children_size_grows(nodes, i, a, (b - 1) as nat);
    }
}

/// The file system: an arena of entries, the first of which is the root.
#[derive(Debug)]
pub struct FileSystem {
    pub root_idx: Idx,
    pub arena: Arena<Entry>,
}

impl View for FileSystem {
    type V = Seq<Node>;

    open spec fn view(&self) -> Seq<Node> {
        nodes_of(self.arena.storage@)
    }
}

/// No entry that can be reached from the root takes up, with what lies
/// below it, more than 64 bits can count.
pub open spec fn sizes_fit(nodes: Seq<Node>) -> bool {
    forall|i: int| 0 <= i < nodes.len() && reachable(nodes, i) ==> #[trigger] tree_size(nodes, i) <= u64::MAX
}

impl FileSystem {
    /// The arena starts with the root, and children come after their
    /// directories.
    pub open spec fn wf(&self) -> bool {
        &&& self.root_idx.0 == 0
        &&& self@.len() > 0
        &&& self@[0].is_root
        &&& ordered(self@)
    }

    /// For every directory that can be reached from the root, what the
    /// files in it and below it take up; no size for the other entries.
    pub fn calculate_sizes(&self) -> (sizes: Vec<Option<u64>>)
        requires
            self.wf(),
            sizes_fit(self@),
        ensures
            sizes@.len() == self@.len(),
            forall|i: int|
                0 <= i < sizes@.len() ==> #[trigger] sizes@[i] == if reachable(self@, i) && !self@[i].is_file {
                    Some(tree_size(self@, i) as u64)
                } else {
                    None
                },
    {
        let totals = self.totals();
        let marks = self.reached();
        let mut sizes: Vec<Option<u64>> = Vec::new();
        let mut i: usize = 0;
        while i < totals.len()
            invariant
                i <= totals@.len(),
                totals@.len() == self@.len(),
                marks@.len() == self@.len(),
                sizes_fit(self@),
                forall|j: int|
                    0 <= j < totals@.len() ==> #[trigger] totals@[j] == if reachable(self@, j) {
                        tree_size(self@, j)
                    } else {
                        0
                    },
                forall|j: int| 0 <= j < marks@.len() ==> #[trigger] marks@[j] == reachable(self@, j),
                sizes@.len() == i,
                forall|j: int|
                    0 <= j < i ==> #[trigger] sizes@[j] == if reachable(self@, j) && !self@[j].is_file {
                        Some(tree_size(self@, j) as u64)
                    } else {
                        None
                    },
            decreases totals@.len() - i,
        {
            assert(self@[i as int] == self.arena.storage@[i as int]@);
            if marks[i] && self.arena.get(Idx(i)).is_dir() {
                sizes.push(Some(totals[i]));
            } else {
                sizes.push(None);
            }
            i += 1;
        }
        sizes
    }

    /// For every entry that can be reached from the root, what it and the
    /// entries below it take up; nothing for the others.
    pub fn totals(&self) -> (sizes: Vec<u64>)
        requires
            self.wf(),
            sizes_fit(self@),
        ensures
            sizes@.len() == self@.len(),
            forall|i: int|
                0 <= i < sizes@.len() ==> #[trigger] sizes@[i] == if reachable(self@, i) {
                    tree_size(self@, i)
                } else {
                    0
                },
    {
        let len = self.arena.storage.len();
        let ghost nodes = self@;
        let marks = self.reached();
        let mut sizes: Vec<u64> = Vec::new();
        let mut k: usize = 0;
        while k < len
            invariant
                k <= len,
                sizes@.len() == k,
                forall|j: int| 0 <= j < k ==> #[trigger] sizes@[j] == 0,
            decreases len - k,
        {
            sizes.push(0);
            k += 1;
        }
        let mut i: usize = len;
        while i > 0
            invariant
                i <= len,
                len == self.arena.storage@.len(),
                nodes == nodes_of(self.arena.storage@),
                ordered(nodes),
                sizes_fit(nodes),
                sizes@.len() == len,
                marks@.len() == len,
                forall|j: int| 0 <= j < len ==> #[trigger] marks@[j] == reachable(nodes, j),
                forall|j: int| 0 <= j < i ==> #[trigger] sizes@[j] == 0,
                forall|j: int|
                    i <= j < len ==> #[trigger] sizes@[j] == if reachable(nodes, j) {
                        tree_size(nodes, j)
                    } else {
                        0
                    },
            decreases i,
        {
            i -= 1;
            if marks[i] {
                let entry = self.arena.get(Idx(i));
                assert(nodes[i as int] == entry@);
                let total = match entry {
                    Entry::File { size, .. } => *size,
                    Entry::Root { children } | Entry::Dir { children, .. } => {
                        let mut total: u64 = 0;
                        let mut c: usize = 0;
                        while c < children.len()
                            invariant
                                c <= children@.len(),
                                i < len,
                                len == nodes.len(),
                                nodes[i as int].children == indices(children@),
                                !nodes[i as int].is_file,
                                reachable(nodes, i as int),
                                ordered(nodes),
                                sizes_fit(nodes),
                                sizes@.len() == len,
                                forall|j: int|
                                    i < j < len ==> #[trigger] sizes@[j] == if reachable(nodes, j) {
                                        tree_size(nodes, j)
                                    } else {
                                        0
                                    },
                                total == children_size(nodes, i as int, c as nat),
                            decreases children@.len() - c,
                        {
                            let child = children[c].0;
                            proof {
                                assert(nodes[i as int].children[c as int] == child);
                                assert(i < child < len);
                                assert(is_child(nodes, i as int, child as int));
                                assert(reachable(nodes, child as int));
                                lemma_children_size_grows(nodes, i as int, (c + 1) as nat, children@.len() as nat);
                                assert(tree_size(nodes, i as int) <= u64::MAX);
                            }
                            total = total + sizes[child];
                            c += 1;
                        }
                        total
                    },
                };
                sizes.set(i, total);
            }
        }
        sizes
    }

    /// For every entry, whether it can be reached from the root.
    pub fn reached(&self) -> (marks: Vec<bool>)
        requires
            self.wf(),
        ensures
            marks@.len() == self@.len(),
            forall|j: int| 0 <= j < marks@.len() ==> #[trigger] marks@[j] == reachable(self@, j),
    {
        let len = self.arena.storage.len();
        let ghost nodes = self@;
        let mut marks: Vec<bool> = Vec::new();
        let mut k: usize = 0;
        while k < len
            invariant
                k <= len,
                marks@.len() == k,
                forall|j: int| 0 <= j < k ==> #[trigger] marks@[j] == (j == 0),
            decreases len - k,
        {
            marks.push(k == 0);
            k += 1;
        }
        let mut i: usize = 0;
        while i < len
            invariant
                i <= len,
                len == self.arena.storage@.len(),
                nodes == nodes_of(self.arena.storage@),
                ordered(nodes),
                marks@.len() == len,
                forall|j: int| 0 <= j < len ==> #[trigger] marks@[j] == reached_before(nodes, i as int, j),
            decreases len - i,
        {
            proof {
                lemma_reached_before(nodes, i as int, i as int);
            }
            let entry = self.arena.get(Idx(i));
            assert(nodes[i as int] == entry@);
            if marks[i] {
                match entry {
                    Entry::File { .. } => {
                        assert forall|j: int| 0 <= j < len implies #[trigger] marks@[j] == reached_before(
                            nodes,
                            i + 1,
                            j,
                        ) by {
                            lemma_reached_step(nodes, i as int, j);
                        }
                    },
                    Entry::Root { children } | Entry::Dir { children, .. } => {
                        let mut c: usize = 0;
                        while c < children.len()
                            invariant
                                c <= children@.len(),
                                i < len,
                                len == nodes.len(),
                                nodes[i as int].children == indices(children@),
                                !nodes[i as int].is_file,
                                reachable(nodes, i as int),
                                ordered(nodes),
                                marks@.len() == len,
                                forall|j: int|
                                    0 <= j < len ==> #[trigger] marks@[j] == (reached_before(nodes, i as int, j)
                                        || nodes[i as int].children.take(c as int).contains(j)),
                            decreases children@.len() - c,
                        {
                            let child = children[c].0;
                            proof {
                                assert(nodes[i as int].children[c as int] == child);
                                assert(i < child < len);
                                let kids = nodes[i as int].children;
                                let fewer = kids.take(c as int);
                                let more = kids.take(c + 1);
                                assert(more =~= fewer.push(child as int));
                                assert forall|j: int| more.contains(j) <==> fewer.contains(j) || j == child by {
                                    if fewer.contains(j) {
                                        let q = choose|q: int| 0 <= q < fewer.len() && fewer[q] == j;
                                        assert(more[q] == j);
                                    }
                                    if j == child {
                                        assert(more[c as int] == j);
                                    }
                                    if more.contains(j) {
                                        let q = choose|q: int| 0 <= q < more.len() && more[q] == j;
                                        if q < c {
                                            assert(fewer[q] == j);
                                        }
                                    }
                                }
                            }
                            marks.set(child, true);
                            c += 1;
                        }
                        proof {
                            assert(nodes[i as int].children.take(c as int) == nodes[i as int].children);
                            assert forall|j: int| 0 <= j < len implies #[trigger] marks@[j] == reached_before(
                                nodes,
                                i + 1,
                                j,
                            ) by {
                                lemma_reached_step(nodes, i as int, j);
                            }
                        }
                    },
                }
            } else {
                assert forall|j: int| 0 <= j < len implies #[trigger] marks@[j] == reached_before(
                    nodes,
                    i + 1,
                    j,
                ) by {
                    lemma_reached_step(nodes, i as int, j);
                }
            }
            i += 1;
        }
        proof {
            assert forall|j: int| 0 <= j < len implies #[trigger] marks@[j] == reachable(nodes, j) by {
                lemma_reached_before(nodes, len as int, j);
            }
        }
        marks
    }
}

/// Whether entry `j` is the root or the child of a reachable directory
/// before entry `i`.
pub open spec fn reached_before(nodes: Seq<Node>, i: int, j: int) -> bool {
    j == 0 || (j > 0 && exists|p: int| 0 <= p < i && p < j && reachable(nodes, p) && #[trigger] is_child(nodes, p, j))
}

/// Once the entries before `j` have been looked at, what has been reached
/// is what can be reached.
pub proof fn lemma_reached_before(nodes: Seq<Node>, i: int, j: int)
    requires
        j <= i,
    ensures
        reached_before(nodes, i, j) == reachable(nodes, j),
{
    if reachable(nodes, j) && j > 0 {
        let p = choose|p: int| 0 <= p < j && reachable(nodes, p) && #[trigger] is_child(nodes, p, j);
        assert(0 <= p < i && p < j && reachable(nodes, p) && is_child(nodes, p, j));
    }
}

/// Looking at entry `i` reaches its children, if it is a reachable
/// directory, and nothing else.
pub proof fn lemma_reached_step(nodes: Seq<Node>, i: int, j: int)
    requires
        0 <= i < nodes.len(),
        ordered(nodes),
    ensures
        reached_before(nodes, i + 1, j) == (reached_before(nodes, i, j) || (reachable(nodes, i) && is_child(
            nodes,
            i,
            j,
        ))),
{
    if reached_before(nodes, i + 1, j) && j > 0 {
        let p = choose|p: int|
            0 <= p < i + 1 && p < j && reachable(nodes, p) && #[trigger] is_child(nodes, p, j);
        if p < i {
            assert(0 <= p < i && p < j && reachable(nodes, p) && is_child(nodes, p, j));
        }
    }
    if reached_before(nodes, i, j) && j > 0 {
        let p = choose|p: int| 0 <= p < i && p < j && reachable(nodes, p) && #[trigger] is_child(nodes, p, j);
        assert(0 <= p < i + 1 && p < j && reachable(nodes, p) && is_child(nodes, p, j));
    }
    if reachable(nodes, i) && is_child(nodes, i, j) {
        let k = choose|k: int| 0 <= k < nodes[i].children.len() && nodes[i].children[k] == j;
        assert(i < nodes[i].children[k]);
        assert(0 <= i < i + 1 && i < j && reachable(nodes, i) && is_child(nodes, i, j));
    }
}

/// The shell while it reads the record of a session: the entries found so
/// far, the directory it is in, and whether a listing is under way.
pub struct Shell {
    pub nodes: Seq<Node>,
    pub current: int,
    pub listing: bool,
}

/// The shell before the first line: the root is all there is.
pub open spec fn shell_at_start() -> Shell {
    Shell {
        nodes: seq![
            Node { is_file: false, is_root: true, name: seq![], size: 0, children: seq![], parent: 0 },
        ],
        current: 0,
        listing: false,
    }
}

/// Index among the first `n` children of directory `dir` of the first
/// directory named `name`; `n` if there is none.
pub open spec fn child_named(nodes: Seq<Node>, dir: int, name: Seq<char>, n: nat) -> nat
    decreases n,
{
    if n == 0 {
        0
    } else {
        let before = child_named(nodes, dir, name, (n - 1) as nat);
        if before < n - 1 {
            before
        } else {
            let c = nodes[dir].children[n - 1];
            if 0 <= c < nodes.len() && !nodes[c].is_file && !nodes[c].is_root && nodes[c].name == name {
                (n - 1) as nat
            } else {
                n
            }
        }
    }
}

/// The shell after it has read a line; none where the line cannot be
/// followed. A line that starts with `$` is a command: `ls` starts a
/// listing of the current directory, `cd` changes it, to the root for
/// `/`, to the parent for `..`, else to the child of that name. Other
/// lines are entries of the listing under way, if one is.
pub open spec fn after_line(s: Shell, line: Seq<char>) -> Option<Shell> {
    match after_prefix(line, "$"@) {
        Some(rest) => {
            let command = trimmed(rest);
            if command == "ls"@ {
                Some(
                    Shell {
                        nodes: s.nodes.update(s.current, Node { children: seq![], ..s.nodes[s.current] }),
                        listing: true,
                        ..s
                    },
                )
            } else {
                match after_prefix(command, "cd"@) {
                    None => Some(Shell { listing: false, ..s }),
                    Some(arg) => {
                        let name = trimmed(arg);
                        let kids = s.nodes[s.current].children;
                        let k = child_named(s.nodes, s.current, name, kids.len());
                        if name == "/"@ {
                            Some(Shell { current: 0, listing: false, ..s })
                        } else if name == ".."@ {
                            if s.nodes[s.current].is_root {
                                None
                            } else {
                                Some(Shell { current: s.nodes[s.current].parent, listing: false, ..s })
                            }
                        } else if k < kids.len() {
                            Some(Shell { current: kids[k as int], listing: false, ..s })
                        } else {
                            None
                        }
                    },
                }
            }
        },
        None => if s.listing {
            match entry_of(line, s.current) {
                None => None,
                Some(node) => Some(
                    Shell {
                        nodes: s.nodes.update(
                            s.current,
                            Node {
                                children: s.nodes[s.current].children.push(s.nodes.len() as int),
                                ..s.nodes[s.current]
                            },
                        ).push(node),
                        ..s
                    },
                ),
            }
        } else {
            Some(s)
        },
    }
}

/// The shell after it has read the first `n` lines.
pub open spec fn after_lines(lines: Seq<Seq<char>>, n: nat) -> Option<Shell>
    decreases n,
{
    if n == 0 {
        Some(shell_at_start())
    } else {
        match after_lines(lines, (n - 1) as nat) {
            None => None,
            Some(s) => after_line(s, lines[n - 1]),
        }
    }
}

/// The entries that the record of a session shows; none where a line
/// cannot be followed.
pub open spec fn file_system_of(text: Seq<char>) -> Option<Seq<Node>> {
    match after_lines(entries_of(text), entries_of(text).len()) {
        None => None,
        Some(s) => Some(s.nodes),
    }
}

/// Once a line cannot be followed, no later line is read.
pub proof fn lemma_after_lines_stuck(lines: Seq<Seq<char>>, k: nat, n: nat)
    requires
        k <= n,
        after_lines(lines, k) is None,
    ensures
        after_lines(lines, n) is None,
    decreases n,
{
    if k < n {
        lemma_after_lines_stuck(lines, k, (n - 1) as nat);
    }
}

/// The shell is in a directory, and children come after their
/// directories.
pub open spec fn shell_ok(s: Shell) -> bool {
    &&& s.nodes.len() > 0
    &&& s.nodes[0].is_root
    &&& ordered(s.nodes)
    &&& 0 <= s.current < s.nodes.len()
    &&& !s.nodes[s.current].is_file
    &&& forall|i: int| 0 <= i < s.nodes.len() && #[trigger] s.nodes[i].is_root ==> !s.nodes[i].is_file
    &&& forall|i: int|
        0 <= i < s.nodes.len() && !(#[trigger] s.nodes[i]).is_file && !s.nodes[i].is_root ==> 0 <= s.nodes[i].parent
            < s.nodes.len() && !s.nodes[s.nodes[i].parent].is_file
}

/// The first directory named `name` among the first `n` children is a
/// child.
pub proof fn lemma_child_named(nodes: Seq<Node>, dir: int, name: Seq<char>, n: nat)
    ensures
        child_named(nodes, dir, name, n) <= n,
        child_named(nodes, dir, name, n) < n ==> {
            let c = nodes[dir].children[child_named(nodes, dir, name, n) as int];
            0 <= c < nodes.len() && !nodes[c].is_file && !nodes[c].is_root && nodes[c].name == name
        },
    decreases n,
{
    if n > 0 {
        lemma_child_named(nodes, dir, name, (n - 1) as nat);
    }
}

/// Reading a line leaves the shell in order.
pub proof fn lemma_after_line(s: Shell, line: Seq<char>)
    requires
        shell_ok(s),
        after_line(s, line) is Some,
    ensures
        shell_ok(after_line(s, line)->0),
{
    let t = after_line(s, line)->0;
    match after_prefix(line, "$"@) {
        Some(rest) => {
            let command = trimmed(rest);
            if command == "ls"@ {
                assert forall|i: int, k: int|
                    0 <= i < t.nodes.len() && 0 <= k < t.nodes[i].children.len() implies i < (
                #[trigger] t.nodes[i].children[k]) < t.nodes.len() by {
                    assert(t.nodes[i].children[k] == s.nodes[i].children[k]);
                }
                assert forall|i: int|
                    0 <= i < t.nodes.len() && !(#[trigger] t.nodes[i]).is_file && !t.nodes[i].is_root implies 0
                    <= t.nodes[i].parent < t.nodes.len() && !t.nodes[t.nodes[i].parent].is_file by {
                    assert(!s.nodes[i].is_file && !s.nodes[i].is_root);
                }
            } else {
                match after_prefix(command, "cd"@) {
                    None => {},
                    Some(arg) => {
                        let name = trimmed(arg);
                        let kids = s.nodes[s.current].children;
                        lemma_child_named(s.nodes, s.current, name, kids.len());
                    },
                }
            }
        },
        None => {
            if s.listing {
                assert forall|i: int, k: int|
                    0 <= i < t.nodes.len() && 0 <= k < t.nodes[i].children.len() implies i < (
                #[trigger] t.nodes[i].children[k]) < t.nodes.len() by {
                    if i == s.current {
                        if k < s.nodes[i].children.len() {
                            assert(t.nodes[i].children[k] == s.nodes[i].children[k]);
                        }
                    } else if i < s.nodes.len() {
                        assert(t.nodes[i].children[k] == s.nodes[i].children[k]);
                    }
                }
                assert forall|i: int|
                    0 <= i < t.nodes.len() && !(#[trigger] t.nodes[i]).is_file && !t.nodes[i].is_root implies 0
                    <= t.nodes[i].parent < t.nodes.len() && !t.nodes[t.nodes[i].parent].is_file by {
                    if i < s.nodes.len() {
                        assert(!s.nodes[i].is_file && !s.nodes[i].is_root);
                    }
                }
                assert forall|i: int| 0 <= i < t.nodes.len() && #[trigger] t.nodes[i].is_root implies !t.nodes[i].is_file by {
                    if i < s.nodes.len() {
                        assert(s.nodes[i].is_root);
                    }
                }
            }
        },
    }
}

/// Whether `s` is made of the characters of `word`.
fn is_text(s: &[char], word: &str) -> (r: bool)
    ensures
        r == (s@ == word@),
{
    match strip_prefix(s, word) {
        Some(rest) => {
            let r = rest.len() == 0;
            proof {
                let n = word@.len() as int;
                if r {
                    assert(s@.take(n) == s@);
                } else if s@ == word@ {
                    assert(s@.skip(n).len() == 0);
                }
            }
            r
        },
        None => {
            proof {
                if s@ == word@ {
                    assert(s@.take(word@.len() as int) == s@);
                }
            }
            false
        },
    }
}

/// Whether the two texts are the same.
fn same_text(a: &Vec<char>, b: &[char]) -> (r: bool)
    ensures
        r == (a@ == b@),
{
    if a.len() != b.len() {
        return false;
    }
    let mut i: usize = 0;
    while i < a.len()
        invariant
            i <= a@.len(),
            a@.len() == b@.len(),
            forall|j: int| 0 <= j < i ==> a@[j] == b@[j],
        decreases a@.len() - i,
    {
        if a[i] != b[i] {
            return false;
        }
        i += 1;
    }
    assert(a@ =~= b@);
    true
}

impl FileSystem {
    /// The first child of the directory `dir` that is a directory named
    /// `name`.
    pub fn find_child_idx(&self, dir: Idx, name: &[char]) -> (r: Option<Idx>)
        requires
            ordered(self@),
            dir.0 < self@.len(),
            !self@[dir.0 as int].is_file,
        ensures
            match r {
                Some(idx) => {
                    let k = child_named(self@, dir.0 as int, name@, self@[dir.0 as int].children.len());
                    k < self@[dir.0 as int].children.len() && idx.0 == self@[dir.0 as int].children[k as int]
                },
                None => child_named(self@, dir.0 as int, name@, self@[dir.0 as int].children.len())
                    >= self@[dir.0 as int].children.len(),
            },
    {
        let ghost nodes = self@;
        let entry = self.arena.get(dir);
        assert(nodes[dir.0 as int] == entry@);
        match entry {
            Entry::Root { children } | Entry::Dir { children, .. } => {
                let mut k: usize = 0;
                while k < children.len()
                    invariant
                        k <= children@.len(),
                        nodes == nodes_of(self.arena.storage@),
                        ordered(nodes),
                        dir.0 < nodes.len(),
                        nodes[dir.0 as int].children == indices(children@),
                        child_named(nodes, dir.0 as int, name@, k as nat) == k,
                    decreases children@.len() - k,
                {
                    let child = children[k];
                    assert(nodes[dir.0 as int].children[k as int] == child.0);
                    assert(dir.0 < child.0 < nodes.len());
                    let found = match self.arena.get(child) {
                        Entry::Dir { name: n, .. } => same_text(n, name),
                        _ => false,
                    };
                    assert(nodes[child.0 as int] == self.arena.storage@[child.0 as int]@);
                    if found {
                        proof {
                            lemma_child_named_found(nodes, dir.0 as int, name@, k as nat, children@.len() as nat);
                        }
                        return Some(child);
                    }
                    k += 1;
                }
                None
            },
            Entry::File { .. } => None,
        }
    }

    /// Reads the file system from the record of a session in a shell.
    pub fn parse(input: &str) -> (r: Option<FileSystem>)
        ensures
            r is Some <==> file_system_of(input@) is Some,
            r matches Some(fs) ==> fs.wf() && Some(fs@) == file_system_of(input@),
    {
        let chars = to_chars(input);
        let lines = entries(chars.as_slice());
        let ghost all = entries_of(input@);
        let mut arena: Arena<Entry> = Arena::new();
        let root_idx = arena.insert(Entry::Root { children: Vec::new() });
        let mut fs = FileSystem { root_idx, arena };
        let mut current = root_idx;
        let mut listing = false;
        let ghost mut shell = shell_at_start();
        proof {
            assert(indices(Seq::<Idx>::empty()) =~= seq![]);
            assert(fs@ =~= shell.nodes);
        }
        let mut i: usize = 0;
        while i < lines.len()
            invariant
                i <= lines@.len(),
                lines@.len() == all.len(),
                all == entries_of(input@),
                forall|j: int| 0 <= j < lines@.len() ==> (#[trigger] lines@[j])@ == all[j],
                after_lines(all, i as nat) == Some(shell),
                shell_ok(shell),
                fs@ == shell.nodes,
                fs.root_idx.0 == 0,
                current.0 == shell.current,
                listing == shell.listing,
            decreases lines@.len() - i,
        {
            let line = lines[i];
            let ghost next = after_line(shell, line@);
            proof {
                assert(after_lines(all, (i + 1) as nat) == next);
                if next is Some {
                    lemma_after_line(shell, line@);
                } else {
                    lemma_after_lines_stuck(all, (i + 1) as nat, all.len());
                }
            }
            match strip_prefix(line, "$") {
                Some(rest) => {
                    let command = trim(rest);
                    if is_text(command, "ls") {
                        fs.arena.storage[current.0].set_children(Vec::new());
                        listing = true;
                        proof {
                            assert(indices(Seq::<Idx>::empty()) =~= seq![]);
                            assert(fs@ =~= next->0.nodes);
                        }
                    } else {
                        listing = false;
                        match strip_prefix(command, "cd") {
                            None => {},
                            Some(arg) => {
                                let name = trim(arg);
                                if is_text(name, "/") {
                                    current = fs.root_idx;
                                } else if is_text(name, "..") {
                                    let entry = fs.arena.get(current);
                                    assert(shell.nodes[current.0 as int] == entry@);
                                    match entry {
                                        Entry::Dir { parent, .. } => {
                                            current = *parent;
                                        },
                                        _ => {
                                            return None;
                                        },
                                    }
                                } else {
                                    match fs.find_child_idx(current, name) {
                                        Some(idx) => {
                                            current = idx;
                                        },
                                        None => {
                                            return None;
                                        },
                                    }
                                }
                            },
                        }
                    }
                },
                None => {
                    if listing {
                        match Entry::parse(line, current) {
                            None => {
                                return None;
                            },
                            Some(entry) => {
                                let ghost before = fs@;
                                let idx = fs.arena.insert(entry);
                                let ghost grown = fs@;
                                proof {
                                    assert(grown =~= before.push(entry@));
                                }
                                match &mut fs.arena.storage[current.0] {
                                    Entry::Root { children } => {
                                        children.push(idx);
                                    },
                                    Entry::Dir { children, .. } => {
                                        children.push(idx);
                                    },
                                    Entry::File { .. } => {},
                                }
                                proof {
                                    let kids = before[current.0 as int].children;
                                    assert(fs@[current.0 as int].children =~= kids.push(idx.0 as int));
                                    assert(fs@ =~= next->0.nodes);
                                }
                            },
                        }
                    }
                },
            }
            proof {
                shell = next->0;
            }
            i += 1;
        }
        Some(fs)
    }
}

/// A directory named `name` at index `k`, with none before it, is the
/// first one.
pub proof fn lemma_child_named_found(nodes: Seq<Node>, dir: int, name: Seq<char>, k: nat, n: nat)
    requires
        k < n,
        child_named(nodes, dir, name, k) == k,
        ({
            let c = nodes[dir].children[k as int];
            0 <= c < nodes.len() && !nodes[c].is_file && !nodes[c].is_root && nodes[c].name == name
        }),
    ensures
        child_named(nodes, dir, name, n) == k,
    decreases n,
{
    if n > k + 1 {
        lemma_child_named_found(nodes, dir, name, k, (n - 1) as nat);
    }
}

/// The way from the root to an entry: the handles of the directories
/// passed, the root first, and of the entry itself.
#[derive(Debug)]
pub struct Path {
    pub segments: Vec<Idx>,
}

impl View for Path {
    type V = Seq<int>;

    open spec fn view(&self) -> Seq<int> {
        indices(self.segments@)
    }
}

impl Path {
    /// The path that consists of `segment`.
    pub fn of(segment: Idx) -> (p: Self)
        ensures
            p@ == seq![segment.0 as int],
    {
        let mut segments: Vec<Idx> = Vec::new();
        segments.push(segment);
        let p = Self { segments };
        assert(p@ =~= seq![segment.0 as int]);
        p
    }

    /// This path.
    pub fn copy(&self) -> (p: Self)
        ensures
            p@ == self@,
    {
        let mut segments: Vec<Idx> = Vec::new();
        let mut i: usize = 0;
        while i < self.segments.len()
            invariant
                i <= self.segments@.len(),
                segments@ == self.segments@.take(i as int),
            decreases self.segments@.len() - i,
        {
            segments.push(self.segments[i]);
            assert(self.segments@.take(i + 1) =~= self.segments@.take(i as int).push(self.segments@[i as int]));
            i += 1;
        }
        assert(self.segments@.take(i as int) == self.segments@);
        Self { segments }
    }

    /// This path with `segment` behind it.
    pub fn extend(&self, segment: Idx) -> (p: Self)
        ensures
            p@ == self@.push(segment.0 as int),
    {
        let mut p = self.copy();
        p.segments.push(segment);
        assert(p@ =~= self@.push(segment.0 as int));
        p
    }

    /// Whether this path starts with the path `of`.
    pub fn is_sub_path(&self, of: &Path) -> (r: bool)
        ensures
            r == (of@.len() <= self@.len() && self@.take(of@.len() as int) == of@),
    {
        if of.segments.len() > self.segments.len() {
            return false;
        }
        let mut i: usize = 0;
        while i < of.segments.len()
            invariant
                i <= of.segments@.len(),
                of.segments@.len() <= self.segments@.len(),
                forall|j: int| 0 <= j < i ==> self@[j] == of@[j],
            decreases of.segments@.len() - i,
        {
            if self.segments[i].0 != of.segments[i].0 {
                assert(self@.take(of@.len() as int)[i as int] != of@[i as int]);
                return false;
            }
            i += 1;
        }
        assert(self@.take(of@.len() as int) =~= of@);
        true
    }
}

/// An entry met on a walk, with the path to it and its depth below the
/// root.
pub type Visit = (Idx, Path, usize);

/// What a visit means: the index of the entry, the path to it, and its
/// depth.
pub open spec fn visit_of(v: Visit) -> (int, Seq<int>, nat) {
    (v.0.0 as int, v.1@, v.2 as nat)
}

/// What the visits mean.
pub open spec fn visits_of(vs: Seq<Visit>) -> Seq<(int, Seq<int>, nat)> {
    vs.map_values(|v: Visit| visit_of(v))
}

/// The entries met on a walk from entry `i`, which lies at the end of
/// `path` and at `depth`: the entry first, then what is met from each of
/// its children, in their order.
pub open spec fn walked(nodes: Seq<Node>, i: int, path: Seq<int>, depth: nat) -> Seq<(int, Seq<int>, nat)>
    decreases nodes.len() - i, 1nat, 0nat,
{
    if i < 0 || i >= nodes.len() {
        seq![]
    } else {
        seq![(i, path, depth)] + walked_below(nodes, i, path, depth, nodes[i].children.len())
    }
}

/// The entries met on the walks from the first `n` children of entry
/// `i`.
pub open spec fn walked_below(nodes: Seq<Node>, i: int, path: Seq<int>, depth: nat, n: nat) -> Seq<
    (int, Seq<int>, nat),
>
    decreases nodes.len() - i, 0nat, n,
{
    if n == 0 || i < 0 || i >= nodes.len() {
        seq![]
    } else {
        let child = nodes[i].children[n - 1];
        walked_below(nodes, i, path, depth, (n - 1) as nat) + if i < child < nodes.len() {
            walked(nodes, child, path.push(child), depth + 1)
        } else {
            seq![]
        }
    }
}

impl FileSystem {
    /// The path of the root.
    pub fn root_path(&self) -> (p: Path)
        ensures
            p@ == seq![self.root_idx.0 as int],
    {
        Path::of(self.root_idx)
    }

    /// Adds to `out` the entries met on a walk from the entry `idx`.
    fn walk_from(&self, idx: Idx, path: &Path, depth: usize, out: &mut Vec<Visit>)
        requires
            ordered(self@),
            idx.0 < self@.len(),
            depth <= idx.0,
        ensures
            visits_of(final(out)@) == visits_of(old(out)@) + walked(self@, idx.0 as int, path@, depth as nat),
        decreases self@.len() - idx.0,
    {
        let ghost nodes = self@;
        let ghost start = visits_of(out@);
        let ghost here = (idx.0 as int, path@, depth as nat);
        out.push((idx, path.copy(), depth));
        assert(visits_of(out@) =~= start.push(here));
        let entry = self.arena.get(idx);
        assert(nodes[idx.0 as int] == entry@);
        match entry {
            Entry::File { .. } => {
                assert(start + walked(nodes, idx.0 as int, path@, depth as nat) =~= start.push(here));
            },
            Entry::Root { children } | Entry::Dir { children, .. } => {
                let mut k: usize = 0;
                assert(start + (seq![here] + Seq::empty()) =~= start.push(here));
                while k < children.len()
                    invariant
                        k <= children@.len(),
                        nodes == self@,
                        ordered(nodes),
                        idx.0 < nodes.len(),
                        depth <= idx.0,
                        nodes[idx.0 as int].children == indices(children@),
                        visits_of(out@) == start + (seq![here] + walked_below(
                            nodes,
                            idx.0 as int,
                            path@,
                            depth as nat,
                            k as nat,
                        )),
                    decreases children@.len() - k,
                {
                    let child = children[k];
                    assert(nodes[idx.0 as int].children[k as int] == child.0);
                    assert(idx.0 < child.0 < nodes.len());
                    let below = path.extend(child);
                    self.walk_from(child, &below, depth + 1, out);
                    assert(visits_of(out@) =~= start + (seq![here] + walked_below(
                        nodes,
                        idx.0 as int,
                        path@,
                        depth as nat,
                        (k + 1) as nat,
                    )));
                    k += 1;
                }
            },
        }
    }

    /// The entries that can be reached from the root, each with the path
    /// to it and its depth, a directory before what it holds.
    pub fn walk(&self) -> (visits: Vec<Visit>)
        requires
            self.wf(),
        ensures
            visits_of(visits@) == walked(self@, 0, seq![0int], 0),
    {
        let mut visits: Vec<Visit> = Vec::new();
        let root = self.root_path();
        self.walk_from(self.root_idx, &root, 0, &mut visits);
        assert(visits_of(Seq::<Visit>::empty()) + walked(self@, 0, seq![0int], 0) =~= walked(
            self@,
            0,
            seq![0int],
            0,
        ));
        visits
    }
}

/// The greatest size that counts as small.
pub const SMALL: u64 = 100_000;

/// The space of the disk.
pub const DISK: u64 = 70_000_000;

/// The space that the update needs.
pub const NEEDED: u64 = 30_000_000;

/// What the small directories among the first `n` entries take up in
/// all, each counted with everything below it.
pub open spec fn small_total(nodes: Seq<Node>, n: nat) -> nat
    decreases n,
{
    if n == 0 {
        0
    } else {
        small_total(nodes, (n - 1) as nat) + if reachable(nodes, n - 1) && !nodes[n - 1].is_file && tree_size(
            nodes,
            n - 1,
        ) <= SMALL {
            tree_size(nodes, n - 1)
        } else {
            0
        }
    }
}

/// Small directories take up at most [`SMALL`] each.
pub proof fn lemma_small_total(nodes: Seq<Node>, n: nat)
    ensures
        small_total(nodes, n) <= n * SMALL,
    decreases n,
{
    if n > 0 {
        lemma_small_total(nodes, (n - 1) as nat);
    }
}

/// What the directories of at most [`SMALL`] take up in all.
pub fn sum_small(fs: &FileSystem) -> (r: u64)
    requires
        fs.wf(),
        sizes_fit(fs@),
        fs@.len() * SMALL <= u64::MAX,
    ensures
        r == small_total(fs@, fs@.len()),
{
    let sizes = fs.calculate_sizes();
    let ghost nodes = fs@;
    let mut total: u64 = 0;
    let mut i: usize = 0;
    while i < sizes.len()
        invariant
            i <= sizes@.len(),
            nodes == nodes_of(fs.arena.storage@),
            sizes@.len() == nodes.len(),
            nodes.len() * SMALL <= u64::MAX,
            sizes_fit(nodes),
            forall|j: int|
                0 <= j < sizes@.len() ==> #[trigger] sizes@[j] == if reachable(nodes, j) && !nodes[j].is_file {
                    Some(tree_size(nodes, j) as u64)
                } else {
                    None
                },
            total == small_total(nodes, i as nat),
        decreases sizes@.len() - i,
    {
        proof {
            lemma_small_total(nodes, (i + 1) as nat);
        }
        match sizes[i] {
            Some(size) => {
                if size <= SMALL {
                    total = total + size;
                }
            },
            None => {},
        }
        i += 1;
    }
    total
}

/// What the directories of `input` that take up at most 100000 take up in
/// all.
pub fn star_one(input: &str) -> (r: u64)
    requires
        file_system_of(input@) matches Some(nodes) && sizes_fit(nodes) && nodes.len() * SMALL <= u64::MAX,
    ensures
        r == small_total(file_system_of(input@)->0, file_system_of(input@)->0.len()),
{
    match FileSystem::parse(input) {
        Some(fs) => sum_small(&fs),
        None => vstd::pervasive::unreached(),
    }
}

/// The space that has to be freed for the update.
pub open spec fn lacking(nodes: Seq<Node>) -> int {
    NEEDED - (DISK - tree_size(nodes, 0))
}

/// Whether entry `i` is a directory other than the root whose deletion
/// frees enough space.
pub open spec fn is_candidate(nodes: Seq<Node>, i: int) -> bool {
    0 < i < nodes.len() && reachable(nodes, i) && !nodes[i].is_file && tree_size(nodes, i) >= lacking(nodes)
}

/// `size` is the size of the smallest directory whose deletion frees
/// enough space.
pub open spec fn is_smallest_candidate(nodes: Seq<Node>, size: nat) -> bool {
    &&& exists|i: int| is_candidate(nodes, i) && #[trigger] tree_size(nodes, i) == size
    &&& forall|i: int| is_candidate(nodes, i) ==> size <= #[trigger] tree_size(nodes, i)
}

/// The size of the smallest directory whose deletion frees enough space,
/// where there is one.
pub fn smallest_to_delete(fs: &FileSystem) -> (r: Option<u64>)
    requires
        fs.wf(),
        sizes_fit(fs@),
        DISK - NEEDED <= tree_size(fs@, 0) <= DISK,
    ensures
        r matches Some(size) ==> is_smallest_candidate(fs@, size as nat),
        r is None ==> forall|i: int| !is_candidate(fs@, i),
{
    let sizes = fs.calculate_sizes();
    let ghost nodes = fs@;
    let used = match sizes[0] {
        Some(size) => size,
        None => vstd::pervasive::unreached(),
    };
    let free_space = DISK - used;
    let need_to_free = NEEDED - free_space;
    let mut best: Option<u64> = None;
    let ghost mut at: int = 0;
    let mut i: usize = 1;
    while i < sizes.len()
        invariant
            1 <= i <= sizes@.len(),
            nodes == nodes_of(fs.arena.storage@),
            sizes@.len() == nodes.len(),
            need_to_free == lacking(nodes),
            sizes_fit(nodes),
            forall|j: int|
                0 <= j < sizes@.len() ==> #[trigger] sizes@[j] == if reachable(nodes, j) && !nodes[j].is_file {
                    Some(tree_size(nodes, j) as u64)
                } else {
                    None
                },
            best is None ==> forall|j: int| 0 <= j < i ==> !is_candidate(nodes, j),
            best matches Some(size) ==> {
                &&& is_candidate(nodes, at)
                &&& tree_size(nodes, at) == size
                &&& forall|j: int| 0 <= j < i && is_candidate(nodes, j) ==> size <= #[trigger] tree_size(nodes, j)
            },
        decreases sizes@.len() - i,
    {
        match sizes[i] {
            Some(found) => {
                if found >= need_to_free {
                    let better = match best {
                        None => true,
                        Some(size) => found < size,
                    };
                    if better {
                        best = Some(found);
                        proof {
                            at = i as int;
                        }
                    }
                }
            },
            None => {},
        }
        i += 1;
    }
    best
}

/// The size of the smallest directory of `input` whose deletion frees
/// enough space for the update.
pub fn star_two(input: &str) -> (r: u64)
    requires
        file_system_of(input@) matches Some(nodes) && sizes_fit(nodes) && DISK - NEEDED <= tree_size(nodes, 0)
            <= DISK && exists|i: int| is_candidate(nodes, i),
    ensures
        is_smallest_candidate(file_system_of(input@)->0, r as nat),
{
    match FileSystem::parse(input) {
        Some(fs) => match smallest_to_delete(&fs) {
            Some(size) => size,
            None => vstd::pervasive::unreached(),
        },
        None => vstd::pervasive::unreached(),
    }
}

} // verus!
