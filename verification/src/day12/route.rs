use crate::day12::grid::Terrain;
use vstd::prelude::*;

verus! {

impl Terrain {
    /// `p` lists the cells of a journey from `from` to `to` in which every
    /// step is a legal move.
    pub open spec fn is_route(self, p: Seq<(usize, usize)>, from: (usize, usize), to: (usize, usize)) -> bool {
        &&& p.len() > 0
        &&& p[0] == from
        &&& p[p.len() - 1] == to
        &&& self.contains(from)
        &&& forall|i: int| 0 <= i < p.len() - 1 ==> self.legal_move(#[trigger] p[i], p[i + 1])
    }

    /// Some route from `from` to `to` takes exactly `n` moves.
    pub open spec fn reaches_in(self, from: (usize, usize), to: (usize, usize), n: nat) -> bool {
        exists|p: Seq<(usize, usize)>| #[trigger] self.is_route(p, from, to) && p.len() == n + 1
    }

    /// Some route leads from `from` to `to`.
    pub open spec fn reachable(self, from: (usize, usize), to: (usize, usize)) -> bool {
        exists|n: nat| self.reaches_in(from, to, n)
    }

    /// `n` is the least number of legal moves that lead from `from` to `to`.
    pub open spec fn is_distance(self, from: (usize, usize), to: (usize, usize), n: nat) -> bool {
        &&& self.reaches_in(from, to, n)
        &&& forall|m: nat| self.reaches_in(from, to, m) ==> n <= m
    }

    /// A cell reaches itself in no move.
    pub proof fn lemma_route_stay(self, c: (usize, usize))
        requires
            self.contains(c),
        ensures
            self.reaches_in(c, c, 0),
            self.is_distance(c, c, 0),
    {
        assert(self.is_route(seq![c], c, c));
    }

    /// A legal move in front of a route gives a route one move longer.
    pub proof fn lemma_route_prepend(self, a: (usize, usize), b: (usize, usize), to: (usize, usize), n: nat)
        requires
            self.legal_move(a, b),
            self.reaches_in(b, to, n),
        ensures
            self.reaches_in(a, to, n + 1),
    {
        let p = choose|p: Seq<(usize, usize)>| #[trigger] self.is_route(p, b, to) && p.len() == n + 1;
        let q = seq![a] + p;
        assert forall|i: int| 0 <= i < q.len() - 1 implies self.legal_move(#[trigger] q[i], q[i + 1]) by {
            if i > 0 {
                assert(q[i] == p[i - 1]);
                assert(q[i + 1] == p[i - 1 + 1]);
            }
        }
        assert(self.is_route(q, a, to));
    }

    /// A route of at least one move starts with a legal move, and what
    /// follows is a route one move shorter.
    pub proof fn lemma_route_first_move(self, p: Seq<(usize, usize)>, from: (usize, usize), to: (usize, usize))
        requires
            self.is_route(p, from, to),
            p.len() > 1,
        ensures
            self.legal_move(from, p[1]),
            self.is_route(p.subrange(1, p.len() as int), p[1], to),
            self.reaches_in(p[1], to, (p.len() - 2) as nat),
    {
        let q = p.subrange(1, p.len() as int);
        assert(self.legal_move(p[0], p[0int + 1]));
        assert forall|i: int| 0 <= i < q.len() - 1 implies self.legal_move(#[trigger] q[i], q[i + 1]) by {
            assert(q[i] == p[i + 1]);
            assert(self.legal_move(p[i + 1], p[i + 1 + 1]));
        }
        assert(self.is_route(q, p[1], to));
    }

    /// At most one number is the distance between two cells.
    pub proof fn lemma_distance_unique(self, from: (usize, usize), to: (usize, usize), n: nat, m: nat)
        requires
            self.is_distance(from, to, n),
            self.is_distance(from, to, m),
        ensures
            n == m,
    {
    }
}

} // verus!
