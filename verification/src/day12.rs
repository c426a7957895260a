use crate::day12::grid::{HeightMap, Terrain};
use crate::day12::parse::{parse_error, terrain_of, ParseError};
use crate::day12::path::{is_trail, reconstruct_path};
use vstd::prelude::*;

pub mod frontier;
pub mod grid;
pub mod parse;
pub mod path;
pub mod route;
pub mod search;
pub mod steps;
pub mod sweep;
pub mod table;

verus! {

impl Terrain {
    /// A cell of the lowest elevation.
    pub open spec fn is_lowest(self, c: (usize, usize)) -> bool {
        self.contains(c) && self.spec_elevation(c) == 0
    }

    /// `k` is the least number of moves in which the end can be reached
    /// from a cell of the lowest elevation.
    pub open spec fn is_nearest_lowest(self, k: nat) -> bool {
        &&& exists|c: (usize, usize)| self.is_lowest(c) && #[trigger] self.is_distance(c, self.end, k)
        &&& forall|c: (usize, usize), j: nat|
            self.is_lowest(c) && #[trigger] self.is_distance(c, self.end, j) ==> k <= j
    }

    /// Where the search result has no trail from a cell, no route leads
    /// from that cell to the anchor.
    pub proof fn lemma_no_trail(
        self,
        anchor: (usize, usize),
        m: Map<(usize, usize), (usize, usize)>,
        target: (usize, usize),
    )
        requires
            self.contains(anchor),
            self.is_search_result(anchor, m),
            forall|p: Seq<(usize, usize)>| !is_trail(m, p, anchor, target),
        ensures
            !self.reachable(target, anchor),
    {
        if self.reachable(target, anchor) {
            if target == anchor {
                assert(is_trail(m, seq![anchor], anchor, target));
            } else {
                assert(m.dom().contains(target));
                assert(self.is_best_step(target, anchor, m[target]));
                let k = choose|k: nat| #[trigger]
                    self.is_distance(m[target], anchor, k) && self.is_distance(target, anchor, k + 1);
                let p = self.lemma_trail_exists(anchor, m, target, k + 1);
            }
        }
    }

    /// The nearest cell of the lowest elevation is no farther from the end
    /// than the start, where the start is such a cell.
    pub proof fn lemma_nearest_at_most_direct(self, direct: nat, nearest: nat)
        requires
            self.is_lowest(self.start),
            self.is_distance(self.start, self.end, direct),
            self.is_nearest_lowest(nearest),
        ensures
            nearest <= direct,
    {
    }

    /// Where the start is a cell of the lowest elevation and reaches the
    /// end, some cell of the lowest elevation is nearest.
    pub proof fn lemma_nearest_exists(self, direct: nat)
        requires
            self.is_lowest(self.start),
            self.is_distance(self.start, self.end, direct),
        ensures
            exists|k: nat| k <= direct && self.is_nearest_lowest(k),
        decreases direct,
    {
        if forall|c: (usize, usize), j: nat|
            self.is_lowest(c) && #[trigger] self.is_distance(c, self.end, j) ==> direct <= j {
            assert(self.is_nearest_lowest(direct));
        } else {
            let (c, j) = choose|c: (usize, usize), j: nat|
                self.is_lowest(c) && #[trigger] self.is_distance(c, self.end, j) && j < direct;
            self.lemma_least_lowest(c, j);
        }
    }

    /// Below any distance of a cell of the lowest elevation lies the least
    /// such distance.
    proof fn lemma_least_lowest(self, c: (usize, usize), j: nat)
        requires
            self.is_lowest(c),
            self.is_distance(c, self.end, j),
        ensures
            exists|k: nat| k <= j && self.is_nearest_lowest(k),
        decreases j,
    {
        if forall|c2: (usize, usize), j2: nat|
            self.is_lowest(c2) && #[trigger] self.is_distance(c2, self.end, j2) ==> j <= j2 {
            assert(self.is_nearest_lowest(j));
        } else {
            let (c2, j2) = choose|c2: (usize, usize), j2: nat|
                self.is_lowest(c2) && #[trigger] self.is_distance(c2, self.end, j2) && j2 < j;
            self.lemma_least_lowest(c2, j2);
        }
    }
}

/// Whether `c` comes before the cell in column `x` and row `y` when the
/// cells are visited column by column.
pub open spec fn visited(c: (usize, usize), x: usize, y: usize) -> bool {
    c.0 < x || (c.0 == x && c.1 < y)
}

/// A cell and the number of cells on the shortest path from it to the
/// end, both ends counted.
pub type Candidate = ((usize, usize), usize);

impl Terrain {
    /// `found` lists, column by column, the cells of the lowest elevation
    /// visited before column `x`, row `y` from which the end can be
    /// reached, each with the number of cells on a shortest path.
    #[verifier::opaque]
    pub open spec fn lists_lowest(self, found: Seq<Candidate>, x: usize, y: usize) -> bool {
        &&& forall|i: int|
            0 <= i < found.len() ==> {
                &&& self.is_lowest((#[trigger] found[i]).0)
                &&& visited(found[i].0, x, y)
                &&& found[i].1 >= 1
                &&& self.is_distance(found[i].0, self.end, (found[i].1 - 1) as nat)
            }
        &&& forall|c: (usize, usize)|
            self.is_lowest(c) && visited(c, x, y) && #[trigger] self.reachable(c, self.end) ==> exists|i: int|
                0 <= i < found.len() && (#[trigger] found[i]).0 == c
        &&& forall|i: int, j: int|
            0 <= i < j < found.len() ==> visited(
                (#[trigger] found[i]).0,
                (#[trigger] found[j]).0.0,
                found[j].0.1,
            )
    }

    /// `found` lists, column by column, the cells of the lowest elevation
    /// from which the end can be reached, each once, with the number of
    /// cells on a shortest path from it to the end.
    pub open spec fn is_lowest_paths(self, found: Seq<Candidate>) -> bool {
        &&& forall|i: int|
            0 <= i < found.len() ==> {
                &&& self.is_lowest((#[trigger] found[i]).0)
                &&& found[i].1 >= 1
                &&& self.is_distance(found[i].0, self.end, (found[i].1 - 1) as nat)
            }
        &&& forall|c: (usize, usize)|
            self.is_lowest(c) && #[trigger] self.reachable(c, self.end) ==> exists|i: int|
                0 <= i < found.len() && (#[trigger] found[i]).0 == c
        &&& forall|i: int, j: int|
            0 <= i < j < found.len() ==> visited(
                (#[trigger] found[i]).0,
                (#[trigger] found[j]).0.0,
                found[j].0.1,
            )
    }

    /// Before the first cell nothing is listed.
    pub proof fn lemma_lists_first(self)
        ensures
            self.lists_lowest(Seq::empty(), 0, 0),
    {
        reveal(Terrain::lists_lowest);
    }

    /// Visiting a cell that is not of the lowest elevation, or from which
    /// the end cannot be reached, adds nothing to the list.
    pub proof fn lemma_lists_pass(self, found: Seq<Candidate>, x: usize, y: usize)
        requires
            self.lists_lowest(found, x, y),
            y < usize::MAX,
            !(self.is_lowest((x, y)) && self.reachable((x, y), self.end)),
        ensures
            self.lists_lowest(found, x, (y + 1) as usize),
    {
        reveal(Terrain::lists_lowest);
        let y2 = (y + 1) as usize;
        assert forall|c: (usize, usize)| visited(c, x, y2) implies visited(c, x, y) || c == (x, y) by {}
        assert forall|c: (usize, usize)|
            self.is_lowest(c) && visited(c, x, y2) && #[trigger] self.reachable(c, self.end) implies exists|
            i: int,
        |
            0 <= i < found.len() && (#[trigger] found[i]).0 == c by {
            assert(visited(c, x, y));
        }
    }

    /// Visiting a cell of the lowest elevation from which the end is
    /// reached on `len` cells adds it to the list.
    pub proof fn lemma_lists_add(self, found: Seq<Candidate>, x: usize, y: usize, len: usize)
        requires
            self.lists_lowest(found, x, y),
            y < usize::MAX,
            self.is_lowest((x, y)),
            len >= 1,
            self.is_distance((x, y), self.end, (len - 1) as nat),
        ensures
            self.lists_lowest(found.push(((x, y), len)), x, (y + 1) as usize),
    {
        reveal(Terrain::lists_lowest);
        let y2 = (y + 1) as usize;
        let more = found.push(((x, y), len));
        assert forall|c: (usize, usize)| visited(c, x, y2) implies visited(c, x, y) || c == (x, y) by {}
        assert forall|i: int| 0 <= i < more.len() implies {
            &&& self.is_lowest((#[trigger] more[i]).0)
            &&& visited(more[i].0, x, y2)
            &&& more[i].1 >= 1
            &&& self.is_distance(more[i].0, self.end, (more[i].1 - 1) as nat)
        } by {
            if i < found.len() {
                assert(more[i] == found[i]);
            }
        }
        assert forall|c: (usize, usize)|
            self.is_lowest(c) && visited(c, x, y2) && #[trigger] self.reachable(c, self.end) implies exists|
            i: int,
        |
            0 <= i < more.len() && (#[trigger] more[i]).0 == c by {
            if c == (x, y) {
                assert(more[found.len() as int].0 == c);
            } else {
                assert(visited(c, x, y));
                let i = choose|i: int| 0 <= i < found.len() && (#[trigger] found[i]).0 == c;
                assert(more[i].0 == c);
            }
        }
        assert forall|i: int, j: int| 0 <= i < j < more.len() implies visited(
            (#[trigger] more[i]).0,
            (#[trigger] more[j]).0.0,
            more[j].0.1,
        ) by {
            assert(more[i] == found[i]);
            if j < found.len() {
                assert(more[j] == found[j]);
            }
        }
    }

    /// After the last row of a column comes the first row of the next.
    pub proof fn lemma_lists_next_column(self, found: Seq<Candidate>, x: usize, y: usize)
        requires
            self.lists_lowest(found, x, y),
            y == self.spec_height(),
            x < usize::MAX,
        ensures
            self.lists_lowest(found, (x + 1) as usize, 0),
    {
        reveal(Terrain::lists_lowest);
        assert forall|c: (usize, usize)| self.is_lowest(c) && visited(c, (x + 1) as usize, 0) implies visited(
            c,
            x,
            y,
        ) by {}
        assert forall|c: (usize, usize)| visited(c, x, y) implies visited(c, (x + 1) as usize, 0) by {}
    }

    /// After the last column every cell has been visited.
    pub proof fn lemma_lists_last(self, found: Seq<Candidate>, x: usize)
        requires
            self.lists_lowest(found, x, 0),
            x == self.spec_width(),
        ensures
            self.is_lowest_paths(found),
    {
        reveal(Terrain::lists_lowest);
        assert forall|c: (usize, usize)| self.is_lowest(c) implies visited(c, x, 0) by {}
    }

    /// The shortest of the listed paths is as long as the least distance
    /// from a cell of the lowest elevation to the end.
    pub proof fn lemma_nearest_listed(self, found: Seq<Candidate>, len: usize)
        requires
            self.is_lowest_paths(found),
            exists|i: int| 0 <= i < found.len() && (#[trigger] found[i]).1 == len,
            forall|j: int| 0 <= j < found.len() ==> len <= (#[trigger] found[j]).1,
        ensures
            len >= 1,
            self.is_nearest_lowest((len - 1) as nat),
    {
        let i = choose|i: int| 0 <= i < found.len() && (#[trigger] found[i]).1 == len;
        assert(self.is_lowest(found[i].0));
        assert(self.is_distance(found[i].0, self.end, (len - 1) as nat));
        assert forall|c: (usize, usize), j: nat|
            self.is_lowest(c) && #[trigger] self.is_distance(c, self.end, j) implies len - 1 <= j by {
            assert(self.reachable(c, self.end));
            let k = choose|k: int| 0 <= k < found.len() && (#[trigger] found[k]).0 == c;
            self.lemma_distance_unique(c, self.end, j, (found[k].1 - 1) as nat);
        }
    }
}

/// The first of the candidates with the shortest path.
pub fn nearest(found: &Vec<Candidate>) -> (r: Option<Candidate>)
    ensures
        r is None <==> found@.len() == 0,
        r matches Some(e) ==> exists|i: int|
            {
                &&& 0 <= i < found@.len()
                &&& #[trigger] found@[i] == e
                &&& forall|j: int| 0 <= j < i ==> e.1 < (#[trigger] found@[j]).1
                &&& forall|j: int| 0 <= j < found@.len() ==> e.1 <= (#[trigger] found@[j]).1
            },
{
    if found.len() == 0 {
        return None;
    }
    let mut at: usize = 0;
    let mut i: usize = 1;
    while i < found.len()
        invariant
            at < i <= found@.len(),
            forall|j: int| 0 <= j < at ==> found@[at as int].1 < (#[trigger] found@[j]).1,
            forall|j: int| 0 <= j < i ==> found@[at as int].1 <= (#[trigger] found@[j]).1,
        decreases found@.len() - i,
    {
        if found[i].1 < found[at].1 {
            at = i;
        }
        i += 1;
    }
    Some(found[at])
}

impl HeightMap {
    /// A shortest route from `from` to `to`, or nothing where no route
    /// leads there. The route is listed from its end: `to` comes first,
    /// `from` last.
    pub fn shortest_path(&self, from: (usize, usize), to: (usize, usize)) -> (r: Option<Vec<(usize, usize)>>)
        requires
            self@.wf(),
            self@.contains(to),
        ensures
            r is Some <==> self@.reachable(from, to),
            r matches Some(path) ==> {
                &&& self@.is_route(path@.reverse(), from, to)
                &&& self@.is_distance(from, to, (path@.len() - 1) as nat)
                &&& forall|m: Map<(usize, usize), (usize, usize)>| #[trigger]
                    self@.is_search_result(to, m) ==> is_trail(m, path@, to, from)
            },
    {
        let came_from = self.djikstra(to);
        let r = reconstruct_path(&came_from, to, from);
        proof {
            match &r {
                Some(path) => {
                    self@.lemma_path_is_shortest(to, came_from@, path@, from);
                    assert forall|m: Map<(usize, usize), (usize, usize)>| #[trigger]
                        self@.is_search_result(to, m) implies is_trail(m, path@, to, from) by {
                        self@.lemma_search_deterministic(to, m, came_from@);
                    }
                },
                None => {
                    self@.lemma_no_trail(to, came_from@, from);
                },
            }
        }
        r
    }

    /// The least number of legal moves that lead from the start to the
    /// end, or nothing where the end cannot be reached.
    pub fn fewest_steps(&self) -> (r: Option<usize>)
        requires
            self@.wf(),
        ensures
            r is Some <==> self@.reachable(self@.start, self@.end),
            r matches Some(k) ==> self@.is_distance(self@.start, self@.end, k as nat),
    {
        match self.shortest_path(self.start, self.end) {
            Some(path) => Some(path.len() - 1),
            None => None,
        }
    }

    /// The cells of the lowest elevation from which the end can be
    /// reached, column by column, each with the number of cells on a
    /// shortest path from it to the end. One search from the end serves
    /// all the cells.
    pub fn lowest_paths(&self) -> (found: Vec<Candidate>)
        requires
            self@.wf(),
        ensures
            self@.is_lowest_paths(found@),
    {
        let came_from = self.djikstra(self.end);
        let width = self.width();
        let height = self.height();
        let mut found: Vec<Candidate> = Vec::new();
        let mut x: usize = 0;
        proof {
            self@.lemma_lists_first();
        }
        while x < width
            invariant
                x <= width,
                self@.wf(),
                width == self@.spec_width(),
                height == self@.spec_height(),
                came_from.wf(),
                self@.is_search_result(self@.end, came_from@),
                self@.lists_lowest(found@, x, 0),
            decreases width - x,
        {
            let mut y: usize = 0;
            while y < height
                invariant
                    x < width,
                    y <= height,
                    self@.wf(),
                    width == self@.spec_width(),
                    height == self@.spec_height(),
                    came_from.wf(),
                    self@.is_search_result(self@.end, came_from@),
                    self@.lists_lowest(found@, x, y),
                decreases height - y,
            {
                let loc = (x, y);
                let path = if self.elevation(loc) == 0 {
                    reconstruct_path(&came_from, self.end, loc)
                } else {
                    None
                };
                match path {
                    None => {
                        proof {
                            if self@.is_lowest(loc) {
                                self@.lemma_no_trail(self@.end, came_from@, loc);
                            }
                            self@.lemma_lists_pass(found@, x, y);
                        }
                    },
                    Some(path) => {
                        proof {
                            self@.lemma_path_is_shortest(self@.end, came_from@, path@, loc);
                            self@.lemma_lists_add(found@, x, y, path@.len() as usize);
                        }
                        found.push((loc, path.len()));
                    },
                }
                y += 1;
            }
            proof {
                self@.lemma_lists_next_column(found@, x, y);
            }
            x += 1;
        }
        proof {
            self@.lemma_lists_last(found@, x);
        }
        found
    }

    /// The least number of legal moves that lead to the end from any cell
    /// of the lowest elevation, or nothing where the end can be reached
    /// from none of them.
    pub fn fewest_steps_from_lowest(&self) -> (r: Option<usize>)
        requires
            self@.wf(),
        ensures
            r is Some <==> exists|c: (usize, usize)| self@.is_lowest(c) && #[trigger] self@.reachable(c, self@.end),
            r matches Some(k) ==> self@.is_nearest_lowest(k as nat),
    {
        let found = self.lowest_paths();
        match nearest(&found) {
            None => {
                proof {
                    assert forall|c: (usize, usize)| self@.is_lowest(c) implies !#[trigger] self@.reachable(
                        c,
                        self@.end,
                    ) by {
                        if self@.reachable(c, self@.end) {
                            let i = choose|i: int| 0 <= i < found@.len() && (#[trigger] found@[i]).0 == c;
                        }
                    }
                }
                None
            },
            Some((cell, len)) => {
                proof {
                    let i = choose|i: int| 0 <= i < found@.len() && #[trigger] found@[i] == (cell, len);
                    assert(found@[i].1 == len);
                    self@.lemma_nearest_listed(found@, len);
                    assert(self@.is_lowest(found@[i].0));
                    assert(self@.is_distance(cell, self@.end, (len - 1) as nat));
                    assert(self@.reachable(cell, self@.end));
                }
                Some(len - 1)
            },
        }
    }
}

/// What a map text yields for the walk from its start.
#[derive(Debug, Clone, Copy, PartialEq, Eq)]
pub enum Outcome {
    /// The least number of moves.
    Steps(usize),
    /// No route leads to the end.
    NoPath,
    /// The text is no height map.
    Invalid(ParseError),
}

/// The least number of moves from the start of the map in `input` to its
/// end, with the cases in which there is none told apart.
pub fn solve_one(input: &str) -> (r: Outcome)
    ensures
        match r {
            Outcome::Steps(k) => parse_error(input@) is None && terrain_of(input@).is_distance(
                terrain_of(input@).start,
                terrain_of(input@).end,
                k as nat,
            ),
            Outcome::NoPath => parse_error(input@) is None && !terrain_of(input@).reachable(
                terrain_of(input@).start,
                terrain_of(input@).end,
            ),
            Outcome::Invalid(e) => parse_error(input@) == Some(e),
        },
{
    match HeightMap::parse(input) {
        Err(e) => Outcome::Invalid(e),
        Ok(map) => match map.fewest_steps() {
            Some(k) => Outcome::Steps(k),
            None => Outcome::NoPath,
        },
    }
}

/// The least number of moves to the end of the map in `input` from any of
/// its cells of the lowest elevation, with the cases in which there is none
/// told apart.
pub fn solve_two(input: &str) -> (r: Outcome)
    ensures
        match r {
            Outcome::Steps(k) => parse_error(input@) is None && terrain_of(input@).is_nearest_lowest(
                k as nat,
            ),
            Outcome::NoPath => parse_error(input@) is None && forall|c: (usize, usize)|
                terrain_of(input@).is_lowest(c) ==> !#[trigger] terrain_of(input@).reachable(
                    c,
                    terrain_of(input@).end,
                ),
            Outcome::Invalid(e) => parse_error(input@) == Some(e),
        },
{
    match HeightMap::parse(input) {
        Err(e) => Outcome::Invalid(e),
        Ok(map) => match map.fewest_steps_from_lowest() {
            Some(k) => Outcome::Steps(k),
            None => Outcome::NoPath,
        },
    }
}

/// The least number of moves from the start of the map in `input` to its
/// end.
pub fn star_one(input: &str) -> (steps: usize)
    requires
        parse_error(input@) is None,
        terrain_of(input@).reachable(terrain_of(input@).start, terrain_of(input@).end),
    ensures
        terrain_of(input@).is_distance(terrain_of(input@).start, terrain_of(input@).end, steps as nat),
{
    match solve_one(input) {
        Outcome::Steps(k) => k,
        _ => vstd::pervasive::unreached(),
    }
}

/// The least number of moves to the end of the map in `input` from any of
/// its cells of the lowest elevation.
pub fn star_two(input: &str) -> (steps: usize)
    requires
        parse_error(input@) is None,
        exists|c: (usize, usize)|
            terrain_of(input@).is_lowest(c) && #[trigger] terrain_of(input@).reachable(
                c,
                terrain_of(input@).end,
            ),
    ensures
        terrain_of(input@).is_nearest_lowest(steps as nat),
{
    match solve_two(input) {
        Outcome::Steps(k) => k,
        _ => vstd::pervasive::unreached(),
    }
}

} // verus!
