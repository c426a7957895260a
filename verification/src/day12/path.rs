use crate::day12::frontier::cell_le;
use crate::day12::grid::Terrain;
use crate::day12::search::CameFrom;
use vstd::prelude::*;

verus! {

/// `p` is what following `m` from `target` gives, read backwards: it starts
/// at `anchor`, ends at `target`, each cell after the first is linked to
/// the one before it, and `anchor` occurs at the start only.
pub open spec fn is_trail(
    m: Map<(usize, usize), (usize, usize)>,
    p: Seq<(usize, usize)>,
    anchor: (usize, usize),
    target: (usize, usize),
) -> bool {
    &&& p.len() > 0
    &&& p[0] == anchor
    &&& p[p.len() - 1] == target
    &&& forall|i: int|
        0 < i < p.len() ==> (#[trigger] p[i]) != anchor && m.dom().contains(p[i]) && m[p[i]] == p[i
            - 1]
}

/// Two trails to one target agree on their last `j + 1` cells.
proof fn lemma_trail_suffix(
    m: Map<(usize, usize), (usize, usize)>,
    left: Seq<(usize, usize)>,
    right: Seq<(usize, usize)>,
    anchor: (usize, usize),
    target: (usize, usize),
    j: nat,
)
    requires
        is_trail(m, left, anchor, target),
        is_trail(m, right, anchor, target),
        j < left.len(),
        j < right.len(),
    ensures
        left[left.len() - 1 - j] == right[right.len() - 1 - j],
    decreases j,
{
    if j > 0 {
        lemma_trail_suffix(m, left, right, anchor, target, (j - 1) as nat);
        let c = left[left.len() - j];
        assert(m[c] == left[left.len() - j - 1]);
        assert(right[right.len() - j] == c);
        assert(m[c] == right[right.len() - j - 1]);
    }
}

/// A predecessor map has at most one trail from an anchor to a target.
pub proof fn lemma_trail_unique(
    m: Map<(usize, usize), (usize, usize)>,
    left: Seq<(usize, usize)>,
    right: Seq<(usize, usize)>,
    anchor: (usize, usize),
    target: (usize, usize),
)
    requires
        is_trail(m, left, anchor, target),
        is_trail(m, right, anchor, target),
    ensures
        left == right,
{
    if left.len() < right.len() {
        lemma_trail_suffix(m, left, right, anchor, target, (left.len() - 1) as nat);
        assert(right[right.len() - left.len()] != anchor);
    } else if right.len() < left.len() {
        lemma_trail_suffix(m, left, right, anchor, target, (right.len() - 1) as nat);
        assert(left[left.len() - right.len()] != anchor);
    } else {
        assert forall|i: int| 0 <= i < left.len() implies left[i] == right[i] by {
            lemma_trail_suffix(m, left, right, anchor, target, (left.len() - 1 - i) as nat);
        }
        assert(left =~= right);
    }
}

/// Walks the predecessor map from `target` until it reaches `anchor` and
/// returns the cells passed, `anchor` first and `target` last. Where the
/// walk ends at another cell, `target` is not connected to `anchor` and
/// there is no path.
pub fn reconstruct_path(came_from: &CameFrom, anchor: (usize, usize), target: (usize, usize)) -> (r: Option<
    Vec<(usize, usize)>,
>)
    requires
        came_from.wf(),
    ensures
        r matches Some(path) ==> is_trail(came_from@, path@, anchor, target),
        r is None ==> forall|p: Seq<(usize, usize)>| !is_trail(came_from@, p, anchor, target),
{
    let mut path: Vec<(usize, usize)> = Vec::new();
    path.push(target);
    let mut current = target;
    while current.0 != anchor.0 || current.1 != anchor.1
        invariant
            came_from.wf(),
            path@.len() > 0,
            path@[0] == target,
            path@[path@.len() - 1] == current,
            forall|i: int|
                0 <= i < path@.len() - 1 ==> (#[trigger] path@[i]) != anchor
                    && came_from@.dom().contains(path@[i]) && came_from@[path@[i]] == path@[i + 1],
            forall|p: Seq<(usize, usize)>| #[trigger]
                is_trail(came_from@, p, anchor, target) ==> p.len() >= path@.len() && p[p.len()
                    - path@.len()] == current,
        decreases came_from.rank_of(current),
    {
        proof {
            came_from.lemma_well_founded();
        }
        match came_from.get(current) {
            None => {
                proof {
                    assert forall|p: Seq<(usize, usize)>| !is_trail(came_from@, p, anchor, target) by {
                        if is_trail(came_from@, p, anchor, target) {
                            let i = p.len() - path@.len();
                            assert(p[i] == current);
                            assert(i > 0);
                        }
                    }
                }
                return None;
            },
            Some(prev) => {
                proof {
                    assert forall|p: Seq<(usize, usize)>| #[trigger]
                        is_trail(came_from@, p, anchor, target) implies p.len() >= path@.len() + 1
                        && p[p.len() - path@.len() - 1] == prev by {
                        let i = p.len() - path@.len();
                        assert(p[i] == current);
                        assert(i > 0);
                    }
                }
                path.push(prev);
                current = prev;
            },
        }
    }
    let mut result: Vec<(usize, usize)> = Vec::new();
    let mut i: usize = path.len();
    while i > 0
        invariant
            i <= path@.len(),
            result@.len() == path@.len() - i,
            forall|j: int| 0 <= j < result@.len() ==> #[trigger] result@[j] == path@[path@.len() - 1 - j],
        decreases i,
    {
        i -= 1;
        result.push(path[i]);
    }
    proof {
        assert forall|j: int| 0 < j < result@.len() implies (#[trigger] result@[j]) != anchor
            && came_from@.dom().contains(result@[j]) && came_from@[result@[j]] == result@[j - 1] by {
            let k = path@.len() - 1 - j;
            assert(result@[j] == path@[k]);
            assert(result@[j - 1] == path@[k + 1]);
        }
    }
    Some(result)
}

impl Terrain {
    /// A search has one outcome: two predecessor maps of the search
    /// towards the same anchor are the same map.
    pub proof fn lemma_search_deterministic(
        self,
        anchor: (usize, usize),
        m1: Map<(usize, usize), (usize, usize)>,
        m2: Map<(usize, usize), (usize, usize)>,
    )
        requires
            self.is_search_result(anchor, m1),
            self.is_search_result(anchor, m2),
        ensures
            m1 == m2,
    {
        assert forall|c: (usize, usize)| m1.dom().contains(c) implies #[trigger] m1[c] == m2[c] by {
            assert(m2.dom().contains(c));
            assert(self.is_best_step(c, anchor, m1[c]));
            assert(self.is_best_step(c, anchor, m2[c]));
            let q1 = m1[c];
            let q2 = m2[c];
            let k1 = choose|k: nat|
                {
                    &&& #[trigger] self.is_distance(q1, anchor, k)
                    &&& self.is_distance(c, anchor, k + 1)
                    &&& self.legal_move(c, q1)
                    &&& forall|x: (usize, usize)| #[trigger]
                        self.legal_move(c, x) && self.is_distance(x, anchor, k) ==> cell_le(x, q1)
                };
            let k2 = choose|k: nat|
                {
                    &&& #[trigger] self.is_distance(q2, anchor, k)
                    &&& self.is_distance(c, anchor, k + 1)
                    &&& self.legal_move(c, q2)
                    &&& forall|x: (usize, usize)| #[trigger]
                        self.legal_move(c, x) && self.is_distance(x, anchor, k) ==> cell_le(x, q2)
                };
            self.lemma_distance_unique(c, anchor, k1 + 1, k2 + 1);
            assert(cell_le(q2, q1));
            assert(cell_le(q1, q2));
        }
        assert(m1.dom() =~= m2.dom());
        assert(m1 =~= m2);
    }

    /// Along a trail of the search towards `anchor`, the cell at index `i`
    /// is `i` moves away from `anchor`.
    pub proof fn lemma_trail_distances(
        self,
        anchor: (usize, usize),
        m: Map<(usize, usize), (usize, usize)>,
        p: Seq<(usize, usize)>,
        target: (usize, usize),
        i: nat,
    )
        requires
            self.contains(anchor),
            self.is_search_result(anchor, m),
            is_trail(m, p, anchor, target),
            i < p.len(),
        ensures
            self.is_distance(p[i as int], anchor, i),
            i > 0 ==> self.legal_move(p[i as int], p[i - 1]),
        decreases i,
    {
        if i == 0 {
            self.lemma_route_stay(anchor);
        } else {
            self.lemma_trail_distances(anchor, m, p, target, (i - 1) as nat);
            let c = p[i as int];
            let q = p[i - 1];
            assert(m.dom().contains(c) && m[c] == q);
            assert(self.is_best_step(c, anchor, q));
            let k = choose|k: nat|
                {
                    &&& #[trigger] self.is_distance(q, anchor, k)
                    &&& self.is_distance(c, anchor, k + 1)
                    &&& self.legal_move(c, q)
                    &&& forall|x: (usize, usize)| #[trigger]
                        self.legal_move(c, x) && self.is_distance(x, anchor, k) ==> cell_le(x, q)
                };
            self.lemma_distance_unique(q, anchor, k, (i - 1) as nat);
        }
    }

    /// The path reconstructed from a search is a shortest route: read from
    /// the target to the anchor, every step is a legal move, and no route
    /// from the target to the anchor has fewer moves.
    pub proof fn lemma_path_is_shortest(
        self,
        anchor: (usize, usize),
        m: Map<(usize, usize), (usize, usize)>,
        p: Seq<(usize, usize)>,
        target: (usize, usize),
    )
        requires
            self.contains(anchor),
            self.is_search_result(anchor, m),
            is_trail(m, p, anchor, target),
        ensures
            forall|i: int| 0 < i < p.len() ==> self.legal_move(#[trigger] p[i], p[i - 1]),
            self.is_route(p.reverse(), target, anchor),
            self.is_distance(target, anchor, (p.len() - 1) as nat),
    {
        assert forall|i: int| 0 < i < p.len() implies self.legal_move(#[trigger] p[i], p[i - 1]) by {
            self.lemma_trail_distances(anchor, m, p, target, i as nat);
        }
        self.lemma_trail_distances(anchor, m, p, target, (p.len() - 1) as nat);
        let r = p.reverse();
        assert forall|i: int| 0 <= i < r.len() - 1 implies self.legal_move(#[trigger] r[i], r[i + 1]) by {
            let j = p.len() - 1 - i;
            assert(r[i] == p[j]);
            assert(r[i + 1] == p[j - 1]);
            assert(self.legal_move(p[j], p[j - 1]));
        }
        assert(r[0] == target);
        assert(r[r.len() - 1] == anchor);
        if p.len() > 1 {
            assert(self.legal_move(p[p.len() - 1], p[p.len() - 1 - 1]));
        }
    }

    /// From every cell at a distance from the anchor the search result has
    /// a trail, and the trail has one cell more than the distance.
    pub proof fn lemma_trail_exists(
        self,
        anchor: (usize, usize),
        m: Map<(usize, usize), (usize, usize)>,
        target: (usize, usize),
        k: nat,
    ) -> (p: Seq<(usize, usize)>)
        requires
            self.is_search_result(anchor, m),
            self.is_distance(target, anchor, k),
        ensures
            is_trail(m, p, anchor, target),
            p.len() == k + 1,
        decreases k,
    {
        if target == anchor {
            assert(self.contains(anchor)) by {
                let r = choose|r: Seq<(usize, usize)>| #[trigger]
                    self.is_route(r, target, anchor) && r.len() == k + 1;
            }
            self.lemma_route_stay(anchor);
            seq![anchor]
        } else {
            assert(self.reachable(target, anchor));
            assert(m.dom().contains(target));
            let q = m[target];
            assert(self.is_best_step(target, anchor, q));
            let j = choose|j: nat|
                {
                    &&& #[trigger] self.is_distance(q, anchor, j)
                    &&& self.is_distance(target, anchor, j + 1)
                    &&& self.legal_move(target, q)
                    &&& forall|x: (usize, usize)| #[trigger]
                        self.legal_move(target, x) && self.is_distance(x, anchor, j) ==> cell_le(
                            x,
                            q,
                        )
                };
            self.lemma_distance_unique(target, anchor, k, j + 1);
            let before = self.lemma_trail_exists(anchor, m, q, j);
            let p = before.push(target);
            assert forall|i: int| 0 < i < p.len() implies (#[trigger] p[i]) != anchor
                && m.dom().contains(p[i]) && m[p[i]] == p[i - 1] by {
                if i < before.len() {
                    assert(p[i] == before[i]);
                    assert(p[i - 1] == before[i - 1]);
                }
            }
            p
        }
    }
}

} // verus!
