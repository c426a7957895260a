use crate::day12::frontier::{cell_le, precedes, HeapEntry};
use crate::day12::grid::Terrain;
use crate::day12::sweep::{at, lemma_distinct_cells, replaced, shaped, Sweep, UNREACHED};
use vstd::multiset::Multiset;
use vstd::prelude::*;

verus! {

/// Replacing one entry of a table keeps its shape and every other entry.
pub proof fn lemma_replaced<T>(g: Terrain, t: Seq<Vec<T>>, t2: Seq<Vec<T>>, c: (usize, usize), v: T)
    requires
        shaped(g, t),
        g.contains(c),
        replaced(t, t2, c, v),
    ensures
        shaped(g, t2),
        forall|m: (usize, usize)| #[trigger]
            g.contains(m) ==> at(t2, m) == (if m == c {
                v
            } else {
                at(t, m)
            }),
{
    assert forall|y: int| 0 <= y < t2.len() implies (#[trigger] t2[y])@.len() == g.spec_width() by {
        assert(t[y]@.len() == g.spec_width());
    }
    assert forall|m: (usize, usize)| #[trigger] g.contains(m) implies at(t2, m) == (if m == c {
        v
    } else {
        at(t, m)
    }) by {
        assert(t[m.1 as int]@.len() == g.spec_width());
        if m.1 != c.1 {
            assert(t2[m.1 as int]@ == t[m.1 as int]@);
        }
    }
}

/// The state in which a search starts satisfies the invariant.
pub proof fn lemma_init(g: Terrain, anchor: (usize, usize), s: Sweep)
    requires
        g.wf(),
        g.contains(anchor),
        shaped(g, s.dist),
        shaped(g, s.links),
        forall|c: (usize, usize)| #[trigger]
            g.contains(c) ==> s.link(c) is None && s.d(c) == (if c == anchor {
                0
            } else {
                UNREACHED
            }),
        s.pending == Multiset::<HeapEntry>::empty().insert(HeapEntry { location: anchor, value: 0 }),
        s.settled == Set::<(usize, usize)>::empty(),
        s.last == (HeapEntry { location: anchor, value: 0 }),
        s.layers == seq![anchor],
        s.cur is None,
    ensures
        s.inv(g, anchor),
{
    g.lemma_route_stay(anchor);
    assert(s.layers[0] == anchor);
    assert(1 <= g.spec_width() * g.spec_height()) by (nonlinear_arith)
        requires
            g.spec_width() >= 1,
            g.spec_height() >= 1,
    ;
    assert(s.entry(anchor) == HeapEntry { location: anchor, value: 0 });
}

/// Dropping a stale entry from the frontier keeps the invariant.
pub proof fn lemma_discard(g: Terrain, anchor: (usize, usize), s: Sweep, e: HeapEntry, s2: Sweep)
    requires
        s.inv(g, anchor),
        s.cur is None,
        s.pending.count(e) > 0,
        e.value != s.d(e.location),
        s2 == (Sweep { pending: s.pending.remove(e), ..s }),
    ensures
        s2.inv(g, anchor),
{
    assert forall|c: (usize, usize)| #[trigger] g.contains(c) && s2.d(c) < UNREACHED implies s2.settled.contains(
        c,
    ) || s2.pending.count(s2.entry(c)) > 0 by {
        assert(s.entry(c) != e);
    }
}

/// Taking the first entry out of the frontier and settling its cell keeps
/// the invariant; the cell's distance leaves room for one more move.
pub proof fn lemma_begin(g: Terrain, anchor: (usize, usize), s: Sweep, e: HeapEntry, s2: Sweep)
    requires
        s.inv(g, anchor),
        s.cur is None,
        s.pending.count(e) > 0,
        forall|x: HeapEntry| s.pending.count(x) > 0 ==> precedes(e, x),
        e.value == s.d(e.location),
        s2 == (Sweep {
            pending: s.pending.remove(e),
            settled: s.settled.insert(e.location),
            last: e,
            cur: Some(e.location),
            done: Seq::empty(),
            ..s
        }),
    ensures
        s2.inv(g, anchor),
        s.d(e.location) + 1 < UNREACHED,
{
    let c = e.location;
    assert(g.contains(c) && precedes(s.last, e) && e.value < UNREACHED);
    assert(s2.entry(c) == e);
    assert(s.d(c) < s.layers.len());
    assert forall|x: (usize, usize)| #[trigger] s2.settled.contains(x) implies g.contains(x) && s2.d(x)
        < UNREACHED && precedes(s2.entry(x), s2.last) by {
        if x != c {
            assert(s.settled.contains(x));
            assert(precedes(s.entry(x), s.last));
        }
    }
    assert forall|x: HeapEntry| #[trigger] s2.pending.count(x) > 0 implies g.contains(x.location)
        && precedes(s2.last, x) && x.value < UNREACHED by {
        assert(s.pending.count(x) > 0);
    }
    assert forall|x: (usize, usize)| #[trigger] g.contains(x) && s2.d(x) < UNREACHED implies s2.settled.contains(
        x,
    ) || s2.pending.count(s2.entry(x)) > 0 by {
        if x != c {
            assert(s.entry(x) != e);
        }
    }
    assert forall|n: (usize, usize), x: (usize, usize)| #[trigger]
        g.legal_move(n, x) && s2.settled.contains(x) && s2.relaxed(n, x) implies s2.d(n) <= s2.d(x)
        + 1 by {
        assert(x != c);
        assert(s.settled.contains(x) && s.relaxed(n, x));
    }
    assert forall|n: (usize, usize), x: (usize, usize)| #[trigger]
        g.legal_move(n, x) && s2.settled.contains(x) && s2.link(n) is Some && s2.d(x) + 1 == s2.d(
            n,
        ) implies cell_le(x, s2.link(n)->0) by {
        if x == c {
            let q = s.link(n)->0;
            assert(g.contains(n));
            assert(s.settled.contains(q));
            assert(precedes(s.entry(q), s.last));
        } else {
            assert(s.settled.contains(x));
        }
    }
    assert forall|x: (usize, usize)| #[trigger] g.contains(x) implies {
        &&& s2.link(x) is Some <==> x != anchor && s2.d(x) < UNREACHED
        &&& s2.link(x) matches Some(q) ==> {
            &&& g.legal_move(x, q)
            &&& s2.settled.contains(q)
            &&& s2.d(x) == s2.d(q) + 1
        }
    } by {
        if s.link(x) is Some {
            assert(s.settled.contains(s.link(x)->0));
        }
    }
}

/// Recording a shorter way to the neighbour `n` of the cell being expanded
/// keeps the invariant; `n` had no distance before.
pub proof fn lemma_relax(g: Terrain, anchor: (usize, usize), s: Sweep, n: (usize, usize), s2: Sweep)
    requires
        s.inv(g, anchor),
        s.cur is Some,
        g.legal_move(n, s.cur->0),
        s.d(s.cur->0) + 1 < s.d(n),
        replaced(s.dist, s2.dist, n, (s.d(s.cur->0) + 1) as usize),
        replaced(s.links, s2.links, n, s.cur),
        s2.pending == s.pending.insert(
            HeapEntry { location: n, value: (s.d(s.cur->0) + 1) as usize },
        ),
        s2.settled == s.settled,
        s2.last == s.last,
        s2.cur == s.cur,
        s2.done == s.done.push(n),
        s2.layers == (if s.d(s.cur->0) + 1 == s.layers.len() {
            s.layers.push(n)
        } else {
            s.layers
        }),
    ensures
        s2.inv(g, anchor),
        s.d(n) == UNREACHED,
{
    let c = s.cur->0;
    let alt = (s.d(c) + 1) as usize;
    lemma_replaced(g, s.dist, s2.dist, n, alt);
    lemma_replaced(g, s.links, s2.links, n, s.cur);
    assert(g.contains(n) && g.contains(c) && n != c);
    assert(s.settled.contains(c));
    assert(s.d(c) < s.layers.len());
    // `n` is not settled, and it is not the anchor
    if s.settled.contains(n) {
        assert(precedes(s.entry(n), s.last));
    }
    assert(n != anchor);
    // `n` had no distance
    if s.d(n) < UNREACHED {
        let q = s.link(n)->0;
        assert(s.settled.contains(q));
        assert(precedes(s.entry(q), s.last));
    }
    assert(s.d(n) == UNREACHED);
    assert forall|x: (usize, usize)| #[trigger] s2.settled.contains(x) implies s2.d(x) == s.d(x)
        && s2.link(x) == s.link(x) && x != n by {
        assert(g.contains(x));
    }
    g.lemma_route_prepend(n, c, anchor, s.d(c) as nat);
    assert(s2.routes_ok(g, anchor));
    assert(s2.links_ok(g, anchor)) by {
        assert forall|x: (usize, usize)| #[trigger] g.contains(x) implies {
            &&& s2.link(x) is Some <==> x != anchor && s2.d(x) < UNREACHED
            &&& s2.link(x) matches Some(q) ==> {
                &&& g.legal_move(x, q)
                &&& s2.settled.contains(q)
                &&& s2.d(x) == s2.d(q) + 1
            }
        } by {
            if x != n && s.link(x) is Some {
                assert(s.settled.contains(s.link(x)->0));
            }
        }
    }
    assert(s2.settled_ok(g)) by {
        assert forall|x: (usize, usize)| #[trigger] s2.settled.contains(x) implies g.contains(x)
            && s2.d(x) < UNREACHED && precedes(s2.entry(x), s2.last) by {
            assert(precedes(s.entry(x), s.last));
        }
    }
    assert(s2.pending_ok(g)) by {
        assert forall|x: HeapEntry| #[trigger] s2.pending.count(x) > 0 implies g.contains(x.location)
            && precedes(s2.last, x) && x.value < UNREACHED by {
            if x != (HeapEntry { location: n, value: alt }) {
                assert(s.pending.count(x) > 0);
            }
        }
    }
    assert(s2.covered(g)) by {
        assert forall|x: (usize, usize)| #[trigger] g.contains(x) && s2.d(x) < UNREACHED implies s2.settled.contains(
            x,
        ) || s2.pending.count(s2.entry(x)) > 0 by {
            if x != n {
                assert(s2.entry(x) == s.entry(x));
            }
        }
    }
    assert(s2.closed_ok(g)) by {
        assert forall|m: (usize, usize), x: (usize, usize)| #[trigger]
            g.legal_move(m, x) && s2.settled.contains(x) && s2.relaxed(m, x) implies s2.d(m) <= s2.d(
            x,
        ) + 1 by {
            assert(g.contains(m));
            if m != n {
                assert(s.relaxed(m, x)) by {
                    if s.cur == Some(x) {
                        let i = choose|i: int| 0 <= i < s2.done.len() && s2.done[i] == m;
                        assert(s.done[i] == m);
                    }
                }
            } else if x != c {
                assert(s.relaxed(m, x));
            }
        }
    }
    assert(s2.ties_ok(g)) by {
        assert forall|m: (usize, usize), x: (usize, usize)| #[trigger]
            g.legal_move(m, x) && s2.settled.contains(x) && s2.link(m) is Some && s2.d(x) + 1
            == s2.d(m) implies cell_le(x, s2.link(m)->0) by {
            assert(g.contains(m));
            if m == n && x != c {
                assert(s.relaxed(m, x));
            }
        }
    }
    assert(s2.layers_ok(g)) by {
        assert forall|k: int| 0 <= k < s.layers.len() implies s.layers[k] != n by {
            assert(s.d(s.layers[k]) == k);
        }
        assert forall|k: int| 0 <= k < s2.layers.len() implies g.contains(#[trigger] s2.layers[k])
            && s2.d(s2.layers[k]) == k by {
            if k < s.layers.len() {
                assert(s2.layers[k] == s.layers[k]);
            }
        }
        assert forall|i: int, j: int| 0 <= i < j < s2.layers.len() implies s2.layers[i]
            != s2.layers[j] by {
            assert(s2.d(s2.layers[i]) == i);
            assert(s2.d(s2.layers[j]) == j);
        }
        lemma_distinct_cells(g.spec_width(), g.spec_height(), s2.layers);
    }
}

/// Passing over a neighbour that is already as near as the cell being
/// expanded can bring it keeps the invariant.
pub proof fn lemma_skip(g: Terrain, anchor: (usize, usize), s: Sweep, n: (usize, usize), s2: Sweep)
    requires
        s.inv(g, anchor),
        s.cur is Some,
        g.legal_move(n, s.cur->0),
        s.d(n) <= s.d(s.cur->0) + 1,
        s2 == (Sweep { done: s.done.push(n), ..s }),
    ensures
        s2.inv(g, anchor),
{
    assert forall|m: (usize, usize), x: (usize, usize)| #[trigger]
        g.legal_move(m, x) && s2.settled.contains(x) && s2.relaxed(m, x) implies s2.d(m) <= s2.d(x)
        + 1 by {
        if m != n {
            assert(s.relaxed(m, x)) by {
                if s.cur == Some(x) {
                    let i = choose|i: int| 0 <= i < s2.done.len() && s2.done[i] == m;
                    assert(s.done[i] == m);
                }
            }
        } else if s.cur != Some(x) {
            assert(s.relaxed(m, x));
        }
    }
}

/// Once every move into the cell being expanded has been relaxed, the
/// expansion is over.
pub proof fn lemma_end(g: Terrain, anchor: (usize, usize), s: Sweep, s2: Sweep)
    requires
        s.inv(g, anchor),
        s.cur is Some,
        forall|n: (usize, usize)| g.legal_move(n, s.cur->0) ==> s.done.contains(n),
        s2 == (Sweep { cur: None, done: Seq::empty(), ..s }),
    ensures
        s2.inv(g, anchor),
{
    assert forall|m: (usize, usize), x: (usize, usize)| #[trigger]
        g.legal_move(m, x) && s2.settled.contains(x) && s2.relaxed(m, x) implies s2.d(m) <= s2.d(x)
        + 1 by {
        assert(s.relaxed(m, x));
    }
}

} // verus!
