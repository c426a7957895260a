use crate::day12::frontier::{cell_le, precedes, HeapEntry};
use crate::day12::grid::Terrain;
use vstd::multiset::Multiset;
use vstd::prelude::*;

verus! {

/// The distance of a cell that no route has reached yet.
pub const UNREACHED: usize = usize::MAX;

/// Entry of the table `t` for the cell `c`.
pub open spec fn at<T>(t: Seq<Vec<T>>, c: (usize, usize)) -> T {
    t[c.1 as int]@[c.0 as int]
}

/// The table `t` has one entry for each cell of `g`.
pub open spec fn shaped<T>(g: Terrain, t: Seq<Vec<T>>) -> bool {
    &&& t.len() == g.spec_height()
    &&& forall|y: int| 0 <= y < t.len() ==> (#[trigger] t[y])@.len() == g.spec_width()
}

/// `t2` is `t` with the entry of `c` replaced by `v`.
pub open spec fn replaced<T>(t: Seq<Vec<T>>, t2: Seq<Vec<T>>, c: (usize, usize), v: T) -> bool {
    &&& t2.len() == t.len()
    &&& t2[c.1 as int]@ == t[c.1 as int]@.update(c.0 as int, v)
    &&& forall|j: int| 0 <= j < t.len() && j != c.1 ==> (#[trigger] t2[j])@ == t[j]@
}

/// The state of a search in progress, as the proof sees it.
pub struct Sweep {
    /// Best distance found so far for each cell.
    pub dist: Seq<Vec<usize>>,
    /// For each cell, the cell it was reached from.
    pub links: Seq<Vec<Option<(usize, usize)>>>,
    /// The entries of the frontier.
    pub pending: Multiset<HeapEntry>,
    /// The cells that have left the frontier at their distance.
    pub settled: Set<(usize, usize)>,
    /// The entry that left the frontier last.
    pub last: HeapEntry,
    /// For each distance found so far, one cell at that distance.
    pub layers: Seq<(usize, usize)>,
    /// The cell whose neighbours are being relaxed, if any.
    pub cur: Option<(usize, usize)>,
    /// The neighbours of `cur` that have been relaxed.
    pub done: Seq<(usize, usize)>,
}

impl Sweep {
    pub open spec fn d(self, c: (usize, usize)) -> usize {
        at(self.dist, c)
    }

    pub open spec fn link(self, c: (usize, usize)) -> Option<(usize, usize)> {
        at(self.links, c)
    }

    pub open spec fn entry(self, c: (usize, usize)) -> HeapEntry {
        HeapEntry { location: c, value: self.d(c) }
    }

    /// Every recorded distance is the length of some route to the anchor.
    pub open spec fn routes_ok(self, g: Terrain, anchor: (usize, usize)) -> bool {
        forall|c: (usize, usize)| #[trigger]
            g.contains(c) && self.d(c) < UNREACHED ==> g.reaches_in(c, anchor, self.d(c) as nat)
    }

    /// A cell other than the anchor has a link exactly when it has a
    /// distance, and the link is a legal move to a settled cell one move
    /// nearer.
    pub open spec fn links_ok(self, g: Terrain, anchor: (usize, usize)) -> bool {
        forall|c: (usize, usize)| #[trigger]
            g.contains(c) ==> {
                &&& self.link(c) is Some <==> c != anchor && self.d(c) < UNREACHED
                &&& self.link(c) matches Some(q) ==> {
                    &&& g.legal_move(c, q)
                    &&& self.settled.contains(q)
                    &&& self.d(c) == self.d(q) + 1
                }
            }
    }

    /// Settled cells have a distance and left the frontier no later than
    /// the last entry.
    pub open spec fn settled_ok(self, g: Terrain) -> bool {
        forall|c: (usize, usize)| #[trigger]
            self.settled.contains(c) ==> {
                &&& g.contains(c)
                &&& self.d(c) < UNREACHED
                &&& precedes(self.entry(c), self.last)
            }
    }

    /// Nothing in the frontier precedes the last entry that left it, and
    /// every entry carries a distance.
    pub open spec fn pending_ok(self, g: Terrain) -> bool {
        forall|e: HeapEntry| #[trigger]
            self.pending.count(e) > 0 ==> g.contains(e.location) && precedes(self.last, e) && e.value
                < UNREACHED
    }

    /// A cell with a distance is settled or waits in the frontier.
    pub open spec fn covered(self, g: Terrain) -> bool {
        forall|c: (usize, usize)| #[trigger]
            g.contains(c) && self.d(c) < UNREACHED ==> self.settled.contains(c)
                || self.pending.count(self.entry(c)) > 0
    }

    /// Whether the move from `n` into the settled cell `x` has been relaxed.
    pub open spec fn relaxed(self, n: (usize, usize), x: (usize, usize)) -> bool {
        self.cur != Some(x) || self.done.contains(n)
    }

    /// Across a relaxed move the distance grows by at most one.
    pub open spec fn closed_ok(self, g: Terrain) -> bool {
        forall|n: (usize, usize), x: (usize, usize)| #[trigger]
            g.legal_move(n, x) && self.settled.contains(x) && self.relaxed(n, x) ==> self.d(n)
                <= self.d(x) + 1
    }

    /// The link of a cell is the greatest, in coordinate order, of the
    /// settled cells one move nearer to the anchor.
    pub open spec fn ties_ok(self, g: Terrain) -> bool {
        forall|n: (usize, usize), x: (usize, usize)| #[trigger]
            g.legal_move(n, x) && self.settled.contains(x) && self.link(n) is Some && self.d(x) + 1
                == self.d(n) ==> cell_le(x, self.link(n)->0)
    }

    /// Each distance below the number of layers has a cell of its own, and
    /// no cell has a greater one.
    pub open spec fn layers_ok(self, g: Terrain) -> bool {
        &&& forall|k: int|
            0 <= k < self.layers.len() ==> g.contains(#[trigger] self.layers[k]) && self.d(
                self.layers[k],
            ) == k
        &&& forall|c: (usize, usize)| #[trigger]
            g.contains(c) && self.d(c) < UNREACHED ==> self.d(c) < self.layers.len()
        &&& self.layers.len() <= g.spec_width() * g.spec_height()
    }

    /// While a cell is being expanded it is settled and was the last to
    /// leave the frontier.
    pub open spec fn cur_ok(self) -> bool {
        self.cur matches Some(c) ==> self.settled.contains(c) && self.last == self.entry(c)
    }

    /// What holds of a search between any two of its steps.
    pub open spec fn inv(self, g: Terrain, anchor: (usize, usize)) -> bool {
        &&& g.wf()
        &&& g.contains(anchor)
        &&& shaped(g, self.dist)
        &&& shaped(g, self.links)
        &&& self.d(anchor) == 0
        &&& self.routes_ok(g, anchor)
        &&& self.links_ok(g, anchor)
        &&& self.settled_ok(g)
        &&& self.pending_ok(g)
        &&& self.covered(g)
        &&& self.closed_ok(g)
        &&& self.ties_ok(g)
        &&& self.layers_ok(g)
        &&& self.cur_ok()
    }
}

/// Cells of a `w` by `h` grid that differ from one another number at most
/// `w * h`.
pub proof fn lemma_distinct_cells(w: nat, h: nat, s: Seq<(usize, usize)>)
    requires
        forall|i: int| 0 <= i < s.len() ==> (#[trigger] s[i]).0 < w && s[i].1 < h,
        forall|i: int, j: int| 0 <= i < j < s.len() ==> s[i] != s[j],
    ensures
        s.len() <= w * h,
{
    let idx = s.map_values(|c: (usize, usize)| c.1 * w + c.0);
    assert forall|i: int| 0 <= i < idx.len() implies 0 <= #[trigger] idx[i] < w * h by {
        let c = s[i];
        assert(c.1 * w + c.0 < w * h) by (nonlinear_arith)
            requires
                c.0 < w,
                c.1 < h,
        ;
    }
    assert forall|i: int, j: int| 0 <= i < j < idx.len() implies idx[i] != idx[j] by {
        let a = s[i];
        let b = s[j];
        assert(a != b);
        assert(a.1 * w + a.0 == b.1 * w + b.0 ==> a.1 == b.1 && a.0 == b.0) by (nonlinear_arith)
            requires
                a.0 < w,
                b.0 < w,
        ;
    }
    assert(idx.no_duplicates());
    idx.unique_seq_to_set();
    let range = vstd::set_lib::set_int_range(0, (w * h) as int);
    vstd::set_lib::lemma_int_range(0, (w * h) as int);
    assert(idx.to_set().subset_of(range)) by {
        assert forall|v: int| idx.to_set().contains(v) implies range.contains(v) by {
            let i = choose|i: int| 0 <= i < idx.len() && idx[i] == v;
            assert(0 <= idx[i] < w * h);
        }
    }
    vstd::set_lib::lemma_len_subset(idx.to_set(), range);
}

} // verus!
