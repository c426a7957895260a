use crate::day12::frontier::{cell_le, Frontier, HeapEntry};
use crate::day12::grid::{HeightMap, Terrain};
use crate::day12::steps::{lemma_begin, lemma_discard, lemma_end, lemma_init, lemma_relax, lemma_replaced, lemma_skip};
use crate::day12::sweep::{at, replaced, shaped, Sweep, UNREACHED};
use crate::day12::table::{lemma_table_total_replaced, table_total};
use crate::tables::filled;
use vstd::prelude::*;

verus! {

/// The predecessor map of a search: for each cell that reaches the anchor,
/// the next cell on a shortest route to it. The anchor itself has no entry.
pub struct CameFrom {
    links: Vec<Vec<Option<(usize, usize)>>>,
    rank: Ghost<Seq<Vec<usize>>>,
}

impl View for CameFrom {
    type V = Map<(usize, usize), (usize, usize)>;

    closed spec fn view(&self) -> Map<(usize, usize), (usize, usize)> {
        Map::new(
            |c: (usize, usize)| self.holds(c) && at(self.links@, c) is Some,
            |c: (usize, usize)| at(self.links@, c)->0,
        )
    }
}

/// The measure `rank` falls along every link of `m`.
pub open spec fn falls_along(m: Map<(usize, usize), (usize, usize)>, rank: spec_fn((usize, usize)) -> nat) -> bool {
    forall|c: (usize, usize)| #[trigger] m.dom().contains(c) ==> rank(m[c]) < rank(c)
}

/// Following `m` from any cell comes to an end: some measure falls along
/// every link.
pub open spec fn well_founded(m: Map<(usize, usize), (usize, usize)>) -> bool {
    exists|rank: spec_fn((usize, usize)) -> nat| #[trigger] falls_along(m, rank)
}

impl CameFrom {
    /// Whether the table has an entry for `c`.
    pub closed spec fn holds(&self, c: (usize, usize)) -> bool {
        c.1 < self.links@.len() && c.0 < self.links@[c.1 as int]@.len()
    }

    /// The hidden measure falls along every link.
    pub closed spec fn wf(&self) -> bool {
        &&& self.rank@.len() == self.links@.len()
        &&& forall|y: int|
            0 <= y < self.links@.len() ==> (#[trigger] self.rank@[y])@.len() == self.links@[y]@.len()
        &&& forall|c: (usize, usize)| #[trigger]
            self.holds(c) ==> (at(self.links@, c) matches Some(q) ==> self.holds(q) && at(
                self.rank@,
                q,
            ) < at(self.rank@, c))
    }

    /// The measure that falls along every link.
    pub closed spec fn rank_of(&self, c: (usize, usize)) -> nat {
        if self.holds(c) {
            at(self.rank@, c) as nat + 1
        } else {
            0
        }
    }

    /// A well-formed predecessor map cannot be followed for ever.
    pub proof fn lemma_well_founded(&self)
        requires
            self.wf(),
        ensures
            well_founded(self@),
            forall|c: (usize, usize)| #[trigger]
                self@.dom().contains(c) ==> self.rank_of(self@[c]) < self.rank_of(c),
    {
        let rank = |c: (usize, usize)| self.rank_of(c);
        assert forall|c: (usize, usize)| #[trigger] self@.dom().contains(c) implies rank(self@[c]) < rank(
            c,
        ) by {
            assert(self.holds(c));
        }
        assert(falls_along(self@, rank));
    }

    /// The predecessor of `c`, if it has one.
    pub fn get(&self, c: (usize, usize)) -> (r: Option<(usize, usize)>)
        ensures
            r == (if self@.dom().contains(c) {
                Some(self@[c])
            } else {
                None
            }),
    {
        if c.1 < self.links.len() && c.0 < self.links[c.1].len() {
            self.links[c.1][c.0]
        } else {
            None
        }
    }
}

impl Terrain {
    /// `q` is the cell that a search towards `anchor` links `c` to: a legal
    /// move from `c` brings one a move nearer to `anchor`, and of all such
    /// cells `q` is the greatest in coordinate order.
    pub open spec fn is_best_step(self, c: (usize, usize), anchor: (usize, usize), q: (usize, usize)) -> bool {
        exists|k: nat|
            {
                &&& #[trigger] self.is_distance(q, anchor, k)
                &&& self.is_distance(c, anchor, k + 1)
                &&& self.legal_move(c, q)
                &&& forall|x: (usize, usize)| #[trigger]
                    self.legal_move(c, x) && self.is_distance(x, anchor, k) ==> cell_le(x, q)
            }
    }

    /// `m` is the predecessor map of the search towards `anchor`: it has an
    /// entry for exactly the cells other than `anchor` from which a route
    /// leads to `anchor`, and each entry is the best step.
    pub open spec fn is_search_result(self, anchor: (usize, usize), m: Map<(usize, usize), (usize, usize)>) -> bool {
        &&& forall|c: (usize, usize)| #[trigger]
            m.dom().contains(c) <==> c != anchor && self.reachable(c, anchor)
        &&& forall|c: (usize, usize)| #[trigger]
            m.dom().contains(c) ==> self.is_best_step(c, anchor, m[c])
    }
}

/// When the frontier is empty, no route is shorter than the recorded
/// distance of the cell it starts from.
pub proof fn lemma_lower_bound(
    g: Terrain,
    anchor: (usize, usize),
    s: Sweep,
    p: Seq<(usize, usize)>,
    c: (usize, usize),
)
    requires
        s.inv(g, anchor),
        s.pending.len() == 0,
        s.cur is None,
        g.is_route(p, c, anchor),
    ensures
        s.d(c) < UNREACHED,
        s.d(c) <= p.len() - 1,
    decreases p.len(),
{
    if p.len() > 1 {
        g.lemma_route_first_move(p, c, anchor);
        let n = p[1];
        lemma_lower_bound(g, anchor, s, p.subrange(1, p.len() as int), n);
        assert(g.contains(n));
        assert(s.pending.count(s.entry(n)) == 0) by {
            if s.pending.count(s.entry(n)) > 0 {
                vstd::multiset::lemma_multiset_empty_len(s.pending);
            }
        }
        assert(s.settled.contains(n));
        assert(s.relaxed(c, n));
        assert(s.d(n) < s.layers.len());
    }
}

/// When the frontier is empty, the recorded distances are the distances.
pub proof fn lemma_distances(g: Terrain, anchor: (usize, usize), s: Sweep, c: (usize, usize))
    requires
        s.inv(g, anchor),
        s.pending.len() == 0,
        s.cur is None,
        g.contains(c),
    ensures
        s.d(c) < UNREACHED <==> g.reachable(c, anchor),
        s.d(c) < UNREACHED ==> g.is_distance(c, anchor, s.d(c) as nat),
        s.d(c) < UNREACHED ==> s.settled.contains(c),
{
    if g.reachable(c, anchor) {
        let n = choose|n: nat| g.reaches_in(c, anchor, n);
        let p = choose|p: Seq<(usize, usize)>| #[trigger] g.is_route(p, c, anchor) && p.len() == n + 1;
        lemma_lower_bound(g, anchor, s, p, c);
    }
    if s.d(c) < UNREACHED {
        assert(g.reaches_in(c, anchor, s.d(c) as nat));
        assert forall|m: nat| g.reaches_in(c, anchor, m) implies s.d(c) <= m by {
            let p = choose|p: Seq<(usize, usize)>| #[trigger]
                g.is_route(p, c, anchor) && p.len() == m + 1;
            lemma_lower_bound(g, anchor, s, p, c);
        }
        assert(s.pending.count(s.entry(c)) == 0) by {
            if s.pending.count(s.entry(c)) > 0 {
                vstd::multiset::lemma_multiset_empty_len(s.pending);
            }
        }
    }
}

/// When the frontier is empty, the links are the predecessor map of the
/// search.
pub proof fn lemma_final(g: Terrain, anchor: (usize, usize), s: Sweep, m: Map<(usize, usize), (usize, usize)>)
    requires
        s.inv(g, anchor),
        s.pending.len() == 0,
        s.cur is None,
        forall|c: (usize, usize)| #[trigger] m.dom().contains(c) <==> g.contains(c) && s.link(c) is Some,
        forall|c: (usize, usize)| #[trigger] m.dom().contains(c) ==> m[c] == s.link(c)->0,
    ensures
        g.is_search_result(anchor, m),
{
    assert forall|c: (usize, usize)| #[trigger] m.dom().contains(c) <==> c != anchor && g.reachable(
        c,
        anchor,
    ) by {
        if g.contains(c) {
            lemma_distances(g, anchor, s, c);
        } else if g.reachable(c, anchor) {
            let n = choose|n: nat| g.reaches_in(c, anchor, n);
            let p = choose|p: Seq<(usize, usize)>| #[trigger]
                g.is_route(p, c, anchor) && p.len() == n + 1;
        }
    }
    assert forall|c: (usize, usize)| #[trigger] m.dom().contains(c) implies g.is_best_step(
        c,
        anchor,
        m[c],
    ) by {
        let q = m[c];
        assert(g.contains(c));
        assert(g.legal_move(c, q));
        lemma_distances(g, anchor, s, c);
        lemma_distances(g, anchor, s, q);
        let k = s.d(q) as nat;
        assert(g.is_distance(q, anchor, k));
        assert forall|x: (usize, usize)| #[trigger]
            g.legal_move(c, x) && g.is_distance(x, anchor, k) implies cell_le(x, q) by {
            lemma_distances(g, anchor, s, x);
            assert(g.reachable(x, anchor));
            g.lemma_distance_unique(x, anchor, k, s.d(x) as nat);
        }
    }
}

impl HeightMap {
    /// Searches the whole map from `from` against the direction of the
    /// moves and returns, for every cell from which `from` can be reached,
    /// the first step of a shortest route to it.
    ///
    /// Cells leave the frontier by ascending distance and, at equal
    /// distance, by descending coordinate; an entry whose distance is no
    /// longer that of its cell is dropped.
    pub fn djikstra(&self, from: (usize, usize)) -> (came_from: CameFrom)
        requires
            self@.wf(),
            self@.contains(from),
        ensures
            came_from.wf(),
            self@.is_search_result(from, came_from@),
    {
        let width = self.width();
        let height = self.height();
        let mut dist: Vec<Vec<usize>> = filled(width, height, UNREACHED);
        let mut links: Vec<Vec<Option<(usize, usize)>>> = filled(width, height, None);
        let ghost blank = dist@;
        dist[from.1][from.0] = 0;
        let mut open = Frontier::new();
        open.push(HeapEntry::new(from, 0));
        let ghost mut s = Sweep {
            dist: dist@,
            links: links@,
            pending: open@,
            settled: Set::empty(),
            last: HeapEntry { location: from, value: 0 },
            layers: seq![from],
            cur: None,
            done: Seq::empty(),
        };
        proof {
            assert(shaped(self@, blank));
            assert(replaced(blank, dist@, from, 0));
            lemma_replaced(self@, blank, dist@, from, 0);
            lemma_init(self@, from, s);
        }
        while !open.is_empty()
            invariant
                open.wf(),
                s.inv(self@, from),
                s.dist == dist@,
                s.links == links@,
                s.pending == open@,
                s.cur is None,
            decreases table_total(dist@), open@.len(),
        {
            let ghost total0 = table_total(dist@);
            let ghost len0 = open@.len();
            let current = open.pop().unwrap();
            let c = current.location;
            assert(self@.contains(c));
            if current.value != dist[c.1][c.0] {
                proof {
                    let s2 = Sweep { pending: open@, ..s };
                    lemma_discard(self@, from, s, current, s2);
                    s = s2;
                }
                continue ;
            }
            proof {
                let s2 = Sweep {
                    pending: open@,
                    settled: s.settled.insert(c),
                    last: current,
                    cur: Some(c),
                    done: Seq::empty(),
                    ..s
                };
                lemma_begin(self@, from, s, current, s2);
                s = s2;
            }
            let neighbors = self.valid_neighbors_backwards(c);
            let alt = current.value + 1;
            let mut i: usize = 0;
            while i < neighbors.len()
                invariant
                    i <= neighbors@.len(),
                    open.wf(),
                    s.inv(self@, from),
                    s.dist == dist@,
                    s.links == links@,
                    s.pending == open@,
                    s.cur == Some(c),
                    s.done == neighbors@.take(i as int),
                    alt == s.d(c) + 1,
                    alt < UNREACHED,
                    forall|n: (usize, usize)| neighbors@.contains(n) <==> self@.legal_move(n, c),
                    table_total(dist@) <= total0,
                    table_total(dist@) == total0 ==> open@.len() == len0 - 1,
                decreases neighbors@.len() - i,
            {
                let neighbor = neighbors[i];
                assert(neighbors@.contains(neighbor));
                assert(self@.legal_move(neighbor, c));
                if alt < dist[neighbor.1][neighbor.0] {
                    let ghost before = s;
                    dist[neighbor.1][neighbor.0] = alt;
                    links[neighbor.1][neighbor.0] = Some(c);
                    open.push(HeapEntry::new(neighbor, alt));
                    proof {
                        let s2 = Sweep {
                            dist: dist@,
                            links: links@,
                            pending: open@,
                            done: s.done.push(neighbor),
                            layers: if alt == s.layers.len() {
                                s.layers.push(neighbor)
                            } else {
                                s.layers
                            },
                            ..s
                        };
                        lemma_relax(self@, from, s, neighbor, s2);
                        lemma_table_total_replaced(before.dist, dist@, neighbor, alt);
                        s = s2;
                    }
                } else {
                    proof {
                        let s2 = Sweep { done: s.done.push(neighbor), ..s };
                        lemma_skip(self@, from, s, neighbor, s2);
                        s = s2;
                    }
                }
                assert(neighbors@.take(i as int).push(neighbor) == neighbors@.take(i + 1));
                i += 1;
            }
            proof {
                assert(neighbors@.take(i as int) == neighbors@);
                let s2 = Sweep { cur: None, done: Seq::empty(), ..s };
                lemma_end(self@, from, s, s2);
                s = s2;
            }
        }
        let came_from = CameFrom { links, rank: Ghost(dist@) };
        proof {
            assert forall|c: (usize, usize)| #[trigger] came_from.holds(c) implies (at(
                came_from.links@,
                c,
            ) matches Some(q) ==> came_from.holds(q) && at(came_from.rank@, q) < at(
                came_from.rank@,
                c,
            )) by {
                assert(self@.contains(c));
            }
            assert forall|c: (usize, usize)| #[trigger]
                came_from@.dom().contains(c) <==> self@.contains(c) && s.link(c) is Some by {
                assert(came_from.holds(c) <==> self@.contains(c));
            }
            lemma_final(self@, from, s, came_from@);
        }
        came_from
    }
}

} // verus!
