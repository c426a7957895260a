use crate::tables::filled;
use crate::text::{entries, entries_of, is_digit, to_chars};
use vstd::prelude::*;

verus! {

/// A patch of trees: `grid[y][x]` is the height of the tree in row `y`,
/// column `x`.
#[derive(Debug)]
pub struct Grid {
    pub grid: Vec<Vec<u8>>,
}

/// A line of trees and the way along it: up or down column `x`, left or
/// right along row `y`.
#[derive(Clone, Copy)]
pub enum Direction {
    Up { x: usize },
    Left { y: usize },
    Right { y: usize },
    Down { x: usize },
}

/// A tree on a line: its height and its place, column first.
pub type Tree = (u8, (usize, usize));

impl View for Grid {
    type V = Seq<Seq<u8>>;

    open spec fn view(&self) -> Seq<Seq<u8>> {
        self.grid@.map_values(|row: Vec<u8>| row@)
    }
}

/// There is a tree, and every row is at least as long as the first: the
/// patch is as wide as its first row, and what lies beyond is not part of
/// it.
pub open spec fn wide_enough(h: Seq<Seq<u8>>) -> bool {
    &&& h.len() > 0
    &&& h[0].len() > 0
    &&& forall|y: int| 0 <= y < h.len() ==> (#[trigger] h[y]).len() >= h[0].len()
}

/// The indices `to - 1`, `to - 2`, down to 0.
pub open spec fn falling(to: int) -> Seq<usize> {
    Seq::new(to as nat, |i: int| (to - 1 - i) as usize)
}

/// The indices `from`, `from + 1`, up to `to - 1`.
pub open spec fn rising(from: int, to: int) -> Seq<usize> {
    if from >= to {
        seq![]
    } else {
        Seq::new((to - from) as nat, |i: int| (from + i) as usize)
    }
}

impl Direction {
    /// The indices passed on the way along a line of `max_dim` trees: all
    /// of them from the far edge on, or those beyond the tree at
    /// `start_dim`.
    pub open spec fn spec_range(self, max_dim: int, start_dim: Option<usize>) -> Seq<usize> {
        match self {
            Direction::Up { .. } | Direction::Left { .. } => falling(
                match start_dim {
                    Some(d) => d as int,
                    None => max_dim,
                },
            ),
            Direction::Down { .. } | Direction::Right { .. } => rising(
                match start_dim {
                    Some(d) => d + 1,
                    None => 0,
                },
                max_dim,
            ),
        }
    }

    /// The indices passed on the way along a line of `max_dim` trees.
    pub fn range(&self, max_dim: usize, start_dim: Option<usize>) -> (r: Vec<usize>)
        requires
            (self is Down || self is Right) ==> (start_dim matches Some(d) ==> d < usize::MAX),
        ensures
            r@ == self.spec_range(max_dim as int, start_dim),
    {
        let mut r: Vec<usize> = Vec::new();
        match self {
            Direction::Up { .. } | Direction::Left { .. } => {
                let to = match start_dim {
                    Some(d) => d,
                    None => max_dim,
                };
                let mut i: usize = to;
                while i > 0
                    invariant
                        i <= to,
                        r@.len() == to - i,
                        forall|j: int| 0 <= j < r@.len() ==> #[trigger] r@[j] == to - 1 - j,
                    decreases i,
                {
                    i -= 1;
                    r.push(i);
                }
                assert(r@ =~= falling(to as int));
            },
            Direction::Down { .. } | Direction::Right { .. } => {
                let from = match start_dim {
                    Some(d) => d + 1,
                    None => 0,
                };
                let mut i: usize = from;
                while i < max_dim
                    invariant
                        from <= i,
                        from < max_dim ==> i <= max_dim,
                        from >= max_dim ==> i == from,
                        r@.len() == i - from,
                        forall|j: int| 0 <= j < r@.len() ==> #[trigger] r@[j] == from + j,
                    decreases max_dim - i,
                {
                    r.push(i);
                    i += 1;
                }
                assert(r@.len() == rising(from as int, max_dim as int).len());
                assert(r@ =~= rising(from as int, max_dim as int));
            },
        }
        r
    }

    pub fn is_horizontal(&self) -> (r: bool)
        ensures
            r == (self is Left || self is Right),
    {
        matches!(self, Direction::Left { .. } | Direction::Right { .. })
    }

    pub fn is_vertical(&self) -> (r: bool)
        ensures
            r == (self is Up || self is Down),
    {
        matches!(self, Direction::Up { .. } | Direction::Down { .. })
    }
}

/// The line lies in the patch, and the tree from which the way starts, if
/// any, lies on the line or just beyond its end.
pub open spec fn on_grid(h: Seq<Seq<u8>>, direction: Direction, dim_start: Option<usize>) -> bool {
    match direction {
        Direction::Up { x } => x < h[0].len() && (dim_start matches Some(d) ==> d <= h.len()),
        Direction::Down { x } => x < h[0].len() && (dim_start matches Some(d) ==> d < usize::MAX),
        Direction::Left { y } => y < h.len() && (dim_start matches Some(d) ==> d <= h[0].len()),
        Direction::Right { y } => y < h.len() && (dim_start matches Some(d) ==> d < usize::MAX),
    }
}

/// The trees passed on the way along a line, nearest first.
pub open spec fn line(h: Seq<Seq<u8>>, direction: Direction, dim_start: Option<usize>) -> Seq<Tree> {
    match direction {
        Direction::Up { x } | Direction::Down { x } => direction.spec_range(
            h.len() as int,
            dim_start,
        ).map_values(|y: usize| (h[y as int][x as int], (x, y))),
        Direction::Left { y } | Direction::Right { y } => direction.spec_range(
            h[0].len() as int,
            dim_start,
        ).map_values(|x: usize| (h[y as int][x as int], (x, y))),
    }
}

/// Every tree of `l` is lower than `height`.
pub open spec fn all_lower(l: Seq<Tree>, height: u8) -> bool {
    forall|j: int| 0 <= j < l.len() ==> (#[trigger] l[j]).0 < height
}

/// The places of the trees of `l` that are taller than every tree before
/// them.
pub open spec fn sighted(l: Seq<Tree>) -> Seq<(usize, usize)>
    decreases l.len(),
{
    if l.len() == 0 {
        seq![]
    } else if all_lower(l.drop_last(), l.last().0) {
        sighted(l.drop_last()).push(l.last().1)
    } else {
        sighted(l.drop_last())
    }
}

/// Number of trees at the start of `l` that are lower than `height`.
pub open spec fn lower_run(l: Seq<Tree>, height: u8) -> nat
    decreases l.len(),
{
    if l.len() == 0 || l[0].0 >= height {
        0
    } else {
        1 + lower_run(l.drop_first(), height)
    }
}

/// The lower run ends at the first tree that is not lower.
pub proof fn lemma_lower_run_is(l: Seq<Tree>, height: u8, k: int)
    requires
        0 <= k <= l.len(),
        k < l.len() ==> l[k].0 >= height,
        forall|i: int| 0 <= i < k ==> (#[trigger] l[i]).0 < height,
    ensures
        lower_run(l, height) == k,
    decreases l.len(),
{
    if k > 0 {
        let t = l.drop_first();
        assert(l[0].0 < height);
        assert forall|i: int| 0 <= i < k - 1 implies (#[trigger] t[i]).0 < height by {
            assert(t[i] == l[i + 1]);
        }
        lemma_lower_run_is(t, height, k - 1);
    }
}

/// Holds of every tree.
pub fn always(_height: u8, _at: (usize, usize)) -> (keep: bool)
    ensures
        keep,
{
    true
}

impl Grid {
    pub fn width(&self) -> (w: usize)
        requires
            wide_enough(self@),
        ensures
            w == self@[0].len(),
            w > 0,
    {
        assert(self@[0] == self.grid@[0]@);
        self.grid[0].len()
    }

    pub fn height(&self) -> (h: usize)
        requires
            wide_enough(self@),
        ensures
            h == self@.len(),
            h > 0,
    {
        self.grid.len()
    }

    /// Walks along a line and returns the trees passed, nearest first, up
    /// to the first of which `predicate` does not hold.
    pub fn scan<F: Fn(u8, (usize, usize)) -> bool>(
        &self,
        direction: Direction,
        dim_start: Option<usize>,
        predicate: F,
    ) -> (r: Vec<Tree>)
        requires
            wide_enough(self@),
            on_grid(self@, direction, dim_start),
            forall|height: u8, at: (usize, usize)| predicate.requires((height, at)),
        ensures
            r@.len() <= line(self@, direction, dim_start).len(),
            r@ == line(self@, direction, dim_start).take(r@.len() as int),
            forall|i: int| 0 <= i < r@.len() ==> predicate.ensures(((#[trigger] r@[i]).0, r@[i].1), true),
            r@.len() < line(self@, direction, dim_start).len() ==> predicate.ensures(
                (
                    line(self@, direction, dim_start)[r@.len() as int].0,
                    line(self@, direction, dim_start)[r@.len() as int].1,
                ),
                false,
            ),
    {
        let ghost all = line(self@, direction, dim_start);
        let vertical = direction.is_vertical();
        let fixed = match direction {
            Direction::Up { x } => x,
            Direction::Down { x } => x,
            Direction::Left { y } => y,
            Direction::Right { y } => y,
        };
        let range = if vertical {
            direction.range(self.height(), dim_start)
        } else {
            direction.range(self.width(), dim_start)
        };
        let mut r: Vec<Tree> = Vec::new();
        let mut i: usize = 0;
        while i < range.len()
            invariant
                i <= range@.len(),
                wide_enough(self@),
                on_grid(self@, direction, dim_start),
                all == line(self@, direction, dim_start),
                vertical == (direction is Up || direction is Down),
                fixed == match direction {
                    Direction::Up { x } => x,
                    Direction::Down { x } => x,
                    Direction::Left { y } => y,
                    Direction::Right { y } => y,
                },
                range@ == direction.spec_range(
                    if vertical {
                        self@.len() as int
                    } else {
                        self@[0].len() as int
                    },
                    dim_start,
                ),
                forall|height: u8, at: (usize, usize)| predicate.requires((height, at)),
                r@.len() == i,
                r@ == all.take(i as int),
                forall|j: int| 0 <= j < r@.len() ==> predicate.ensures(((#[trigger] r@[j]).0, r@[j].1), true),
            decreases range@.len() - i,
        {
            let at = range[i];
            let (x, y) = if vertical {
                (fixed, at)
            } else {
                (at, fixed)
            };
            proof {
                assert(self@.len() == self.grid@.len());
                assert(self@[0].len() <= usize::MAX) by {
                    assert(self@[0] == self.grid@[0]@);
                    assert(self.grid@[0].len() == self.grid@[0]@.len());
                }
                assert(y < self@.len() && x < self@[0].len());
                assert(self@[y as int] == self.grid@[y as int]@);
                assert(self@[y as int].len() >= self@[0].len());
                assert(all[i as int] == (self@[y as int][x as int], (x, y)));
            }
            let height = self.grid[y][x];
            if !predicate(height, (x, y)) {
                return r;
            }
            r.push((height, (x, y)));
            assert(r@ =~= all.take(i + 1));
            i += 1;
        }
        r
    }

    /// The places of the trees on a line that can be seen from the edge
    /// at which the way along it starts.
    pub fn visible_trees(&self, direction: Direction) -> (r: Vec<(usize, usize)>)
        requires
            wide_enough(self@),
            on_grid(self@, direction, None),
        ensures
            r@ == sighted(line(self@, direction, None)),
    {
        let all = self.scan(direction, None, always);
        let ghost l = line(self@, direction, None);
        assert(all@ == l) by {
            assert(l.take(l.len() as int) == l);
        }
        let mut r: Vec<(usize, usize)> = Vec::new();
        let mut max_height: Option<u8> = None;
        let mut i: usize = 0;
        assert(l.take(0).len() == 0);
        while i < all.len()
            invariant
                i <= all@.len(),
                all@ == l,
                r@ == sighted(l.take(i as int)),
                max_height is None <==> i == 0,
                max_height matches Some(m) ==> {
                    &&& forall|j: int| 0 <= j < i ==> (#[trigger] l[j]).0 <= m
                    &&& exists|j: int| 0 <= j < i && (#[trigger] l[j]).0 == m
                },
            decreases all@.len() - i,
        {
            let (height, at) = all[i];
            let is_visible = match max_height {
                Some(c) => height > c,
                None => true,
            };
            proof {
                let before = l.take(i as int);
                assert(l.take(i + 1).drop_last() == before);
                assert(l.take(i + 1).last() == l[i as int]);
                if is_visible {
                    assert forall|j: int| 0 <= j < before.len() implies (#[trigger] before[j]).0
                        < height by {
                        assert(before[j] == l[j]);
                    }
                } else {
                    let m = max_height->0;
                    let j = choose|j: int| 0 <= j < i && (#[trigger] l[j]).0 == m;
                    assert(before[j] == l[j]);
                    assert(!(before[j].0 < height));
                }
            }
            max_height = match max_height {
                Some(c) => if height > c {
                    Some(height)
                } else {
                    Some(c)
                },
                None => Some(height),
            };
            if is_visible {
                r.push(at);
            }
            i += 1;
        }
        assert(l.take(i as int) == l);
        r
    }
}

/// The height a digit stands for.
pub open spec fn digit_of(c: char) -> u8 {
    (c as u32 - 48) as u8
}

/// Every entry of the text is made of digits.
pub open spec fn readable(s: Seq<char>) -> bool {
    forall|y: int, x: int|
        0 <= y < entries_of(s).len() && 0 <= x < entries_of(s)[y].len() ==> is_digit(
            #[trigger] entries_of(s)[y][x],
        )
}

/// The heights that a text stands for: a row for each entry, a tree for
/// each digit.
pub open spec fn grid_of(s: Seq<char>) -> Seq<Seq<u8>> {
    entries_of(s).map_values(|l: Seq<char>| l.map_values(|c: char| digit_of(c)))
}

/// Reads a patch of trees, or nothing where a character of an entry is
/// no digit.
pub fn read(input: &str) -> (r: Option<Grid>)
    ensures
        r is Some <==> readable(input@),
        r matches Some(g) ==> g@ == grid_of(input@),
{
    let chars = to_chars(input);
    let es = entries(chars.as_slice());
    let ghost all = entries_of(input@);
    let mut grid: Vec<Vec<u8>> = Vec::new();
    let mut y: usize = 0;
    while y < es.len()
        invariant
            y <= es@.len(),
            es@.len() == all.len(),
            all == entries_of(input@),
            forall|j: int| 0 <= j < es@.len() ==> (#[trigger] es@[j])@ == all[j],
            forall|j: int, i: int| 0 <= j < y && 0 <= i < all[j].len() ==> is_digit(#[trigger] all[j][i]),
            grid@.len() == y,
            forall|j: int| 0 <= j < y ==> (#[trigger] grid@[j])@ == all[j].map_values(|c: char| digit_of(c)),
        decreases es@.len() - y,
    {
        let line = es[y];
        let mut row: Vec<u8> = Vec::new();
        let mut x: usize = 0;
        while x < line.len()
            invariant
                x <= line@.len(),
                line@ == all[y as int],
                y < all.len(),
                all == entries_of(input@),
                row@.len() == x,
                forall|i: int| 0 <= i < x ==> is_digit(#[trigger] line@[i]),
                forall|i: int| 0 <= i < x ==> #[trigger] row@[i] == digit_of(line@[i]),
            decreases line@.len() - x,
        {
            let c = line[x];
            if !('0' <= c && c <= '9') {
                assert(!is_digit(all[y as int][x as int]));
                return None;
            }
            row.push((c as u32 - 48) as u8);
            x += 1;
        }
        assert(row@ =~= all[y as int].map_values(|c: char| digit_of(c)));
        grid.push(row);
        y += 1;
    }
    let g = Grid { grid };
    assert(g@ =~= grid_of(input@));
    Some(g)
}

/// Reads a patch of trees.
pub fn parse(input: &str) -> (g: Grid)
    requires
        readable(input@),
    ensures
        g@ == grid_of(input@),
{
    match read(input) {
        Some(g) => g,
        None => vstd::pervasive::unreached(),
    }
}

/// The ways along all the lines of a patch, from each edge: left and
/// right along each row, then up and down each column.
pub open spec fn all_ways(h: Seq<Seq<u8>>) -> Seq<Direction> {
    Seq::new(
        2 * h.len() + 2 * h[0].len(),
        |k: int|
            if k < 2 * h.len() {
                if k % 2 == 0 {
                    Direction::Left { y: (k / 2) as usize }
                } else {
                    Direction::Right { y: (k / 2) as usize }
                }
            } else if (k - 2 * h.len()) % 2 == 0 {
                Direction::Up { x: ((k - 2 * h.len()) / 2) as usize }
            } else {
                Direction::Down { x: ((k - 2 * h.len()) / 2) as usize }
            },
    )
}

/// Whether the tree at `at` can be seen on one of the first `n` ways.
pub open spec fn seen_on(h: Seq<Seq<u8>>, n: int, at: (usize, usize)) -> bool {
    exists|k: int| 0 <= k < n && #[trigger] sighted(line(h, all_ways(h)[k], None)).contains(at)
}

/// Whether the tree at `at` can be seen from outside the patch.
pub open spec fn visible(h: Seq<Seq<u8>>, at: (usize, usize)) -> bool {
    seen_on(h, all_ways(h).len() as int, at)
}

/// A sighted place is that of a tree with only lower trees before it.
pub proof fn lemma_sighted(l: Seq<Tree>, at: (usize, usize))
    ensures
        sighted(l).contains(at) <==> exists|k: int|
            0 <= k < l.len() && (#[trigger] l[k]).1 == at && all_lower(l.take(k), l[k].0),
    decreases l.len(),
{
    if l.len() > 0 {
        let rest = l.drop_last();
        let n = l.len() - 1;
        lemma_sighted(rest, at);
        assert(l.take(n) == rest);
        if sighted(l).contains(at) {
            let i = choose|i: int| 0 <= i < sighted(l).len() && sighted(l)[i] == at;
            if all_lower(rest, l.last().0) && i == sighted(rest).len() {
                assert(l[n].1 == at && all_lower(l.take(n), l[n].0));
            } else {
                assert(sighted(rest)[i] == at);
                let k = choose|k: int|
                    0 <= k < rest.len() && (#[trigger] rest[k]).1 == at && all_lower(rest.take(k), rest[k].0);
                assert(rest.take(k) == l.take(k));
                assert(l[k].1 == at && all_lower(l.take(k), l[k].0));
            }
        }
        if exists|k: int| 0 <= k < l.len() && (#[trigger] l[k]).1 == at && all_lower(l.take(k), l[k].0) {
            let k = choose|k: int| 0 <= k < l.len() && (#[trigger] l[k]).1 == at && all_lower(l.take(k), l[k].0);
            if k == n {
                assert(sighted(l) == sighted(rest).push(at));
                assert(sighted(l)[sighted(rest).len() as int] == at);
            } else {
                assert(rest.take(k) == l.take(k));
                assert(rest[k].1 == at && all_lower(rest.take(k), rest[k].0));
                assert(sighted(rest).contains(at));
                let i = choose|i: int| 0 <= i < sighted(rest).len() && sighted(rest)[i] == at;
                assert(sighted(l)[i] == at);
            }
        }
    }
}

/// The trees before the tree in column `x` of row `y` are lower: to the
/// left of it, to the right of it, above it, or below it.
pub open spec fn open_to_edge(h: Seq<Seq<u8>>, x: int, y: int) -> bool {
    ||| forall|i: int| 0 <= i < x ==> (#[trigger] h[y][i]) < h[y][x]
    ||| forall|i: int| x < i < h[0].len() ==> (#[trigger] h[y][i]) < h[y][x]
    ||| forall|j: int| 0 <= j < y ==> (#[trigger] h[j])[x] < h[y][x]
    ||| forall|j: int| y < j < h.len() ==> (#[trigger] h[j])[x] < h[y][x]
}

/// A tree on the way right along row `y` is sighted exactly if the trees
/// to its left are lower; on the way left, if those to its right are.
pub proof fn lemma_sighted_in_row(h: Seq<Seq<u8>>, y: usize, at: (usize, usize))
    requires
        wide_enough(h),
        y < h.len(),
        h[0].len() <= usize::MAX,
    ensures
        sighted(line(h, Direction::Right { y }, None)).contains(at) <==> at.1 == y && at.0 < h[0].len() && forall|
            i: int,
        |
            0 <= i < at.0 ==> (#[trigger] h[y as int][i]) < h[y as int][at.0 as int],
        sighted(line(h, Direction::Left { y }, None)).contains(at) <==> at.1 == y && at.0 < h[0].len() && forall|
            i: int,
        |
            at.0 < i < h[0].len() ==> (#[trigger] h[y as int][i]) < h[y as int][at.0 as int],
{
    let w = h[0].len() as int;
    let row = h[y as int];
    let right = line(h, Direction::Right { y }, None);
    let left = line(h, Direction::Left { y }, None);
    lemma_sighted(right, at);
    lemma_sighted(left, at);
    assert(right.len() == w && left.len() == w);
    assert forall|k: int| 0 <= k < w implies (#[trigger] right[k]) == (row[k], (k as usize, y)) by {}
    assert forall|k: int| 0 <= k < w implies (#[trigger] left[k]) == (row[w - 1 - k], ((w - 1 - k) as usize, y)) by {}
    let before_right = forall|i: int| 0 <= i < at.0 ==> (#[trigger] row[i]) < row[at.0 as int];
    let before_left = forall|i: int| at.0 < i < w ==> (#[trigger] row[i]) < row[at.0 as int];
    if at.1 == y && at.0 < w {
        let x = at.0 as int;
        if before_right {
            assert forall|j: int| 0 <= j < right.take(x).len() implies (#[trigger] right.take(x)[j]).0 < right[x].0 by {
                assert(right.take(x)[j] == right[j]);
                assert(row[j] < row[x]);
            }
            assert(right[x].1 == at && all_lower(right.take(x), right[x].0));
        }
        if before_left {
            let k = w - 1 - x;
            assert forall|j: int| 0 <= j < left.take(k).len() implies (#[trigger] left.take(k)[j]).0 < left[k].0 by {
                assert(left.take(k)[j] == left[j]);
                assert(row[w - 1 - j] < row[x]);
            }
            assert(left[k].1 == at && all_lower(left.take(k), left[k].0));
        }
    }
    if sighted(right).contains(at) {
        let k = choose|k: int| 0 <= k < right.len() && (#[trigger] right[k]).1 == at && all_lower(right.take(k), right[k].0);
        assert(right[k] == (row[k], (k as usize, y)));
        assert forall|i: int| 0 <= i < at.0 implies (#[trigger] row[i]) < row[at.0 as int] by {
            assert(right.take(k)[i] == right[i]);
            assert(right[i] == (row[i], (i as usize, y)));
            assert(right.take(k)[i].0 < right[k].0);
        }
    }
    if sighted(left).contains(at) {
        let k = choose|k: int| 0 <= k < left.len() && (#[trigger] left[k]).1 == at && all_lower(left.take(k), left[k].0);
        assert(left[k] == (row[w - 1 - k], ((w - 1 - k) as usize, y)));
        assert forall|i: int| at.0 < i < w implies (#[trigger] row[i]) < row[at.0 as int] by {
            let j = w - 1 - i;
            assert(left.take(k)[j] == left[j]);
            assert(left[j] == (row[w - 1 - j], ((w - 1 - j) as usize, y)));
            assert(left.take(k)[j].0 < left[k].0);
        }
    }
}

/// A tree on the way down column `x` is sighted exactly if the trees
/// above it are lower; on the way up, if those below it are.
pub proof fn lemma_sighted_in_column(h: Seq<Seq<u8>>, x: usize, at: (usize, usize))
    requires
        wide_enough(h),
        x < h[0].len(),
        h.len() <= usize::MAX,
    ensures
        sighted(line(h, Direction::Down { x }, None)).contains(at) <==> at.0 == x && at.1 < h.len() && forall|
            j: int,
        |
            0 <= j < at.1 ==> (#[trigger] h[j])[x as int] < h[at.1 as int][x as int],
        sighted(line(h, Direction::Up { x }, None)).contains(at) <==> at.0 == x && at.1 < h.len() && forall|j: int|
            at.1 < j < h.len() ==> (#[trigger] h[j])[x as int] < h[at.1 as int][x as int],
{
    let n = h.len() as int;
    let down = line(h, Direction::Down { x }, None);
    let up = line(h, Direction::Up { x }, None);
    lemma_sighted(down, at);
    lemma_sighted(up, at);
    assert(down.len() == n && up.len() == n);
    assert forall|k: int| 0 <= k < n implies (#[trigger] down[k]) == (h[k][x as int], (x, k as usize)) by {}
    assert forall|k: int| 0 <= k < n implies (#[trigger] up[k]) == (h[n - 1 - k][x as int], (x, (n - 1 - k) as usize)) by {}
    let before_down = forall|j: int| 0 <= j < at.1 ==> (#[trigger] h[j])[x as int] < h[at.1 as int][x as int];
    let before_up = forall|j: int| at.1 < j < n ==> (#[trigger] h[j])[x as int] < h[at.1 as int][x as int];
    if at.0 == x && at.1 < n {
        let y = at.1 as int;
        if before_down {
            assert forall|j: int| 0 <= j < down.take(y).len() implies (#[trigger] down.take(y)[j]).0 < down[y].0 by {
                assert(down.take(y)[j] == down[j]);
                assert(h[j][x as int] < h[y][x as int]);
            }
            assert(down[y].1 == at && all_lower(down.take(y), down[y].0));
        }
        if before_up {
            let k = n - 1 - y;
            assert forall|j: int| 0 <= j < up.take(k).len() implies (#[trigger] up.take(k)[j]).0 < up[k].0 by {
                assert(up.take(k)[j] == up[j]);
                assert(h[n - 1 - j][x as int] < h[y][x as int]);
            }
            assert(up[k].1 == at && all_lower(up.take(k), up[k].0));
        }
    }
    if sighted(down).contains(at) {
        let k = choose|k: int| 0 <= k < down.len() && (#[trigger] down[k]).1 == at && all_lower(down.take(k), down[k].0);
        assert(down[k] == (h[k][x as int], (x, k as usize)));
        assert forall|j: int| 0 <= j < at.1 implies (#[trigger] h[j])[x as int] < h[at.1 as int][x as int] by {
            assert(down.take(k)[j] == down[j]);
            assert(down[j] == (h[j][x as int], (x, j as usize)));
            assert(down.take(k)[j].0 < down[k].0);
        }
    }
    if sighted(up).contains(at) {
        let k = choose|k: int| 0 <= k < up.len() && (#[trigger] up[k]).1 == at && all_lower(up.take(k), up[k].0);
        assert(up[k] == (h[n - 1 - k][x as int], (x, (n - 1 - k) as usize)));
        assert forall|j: int| at.1 < j < n implies (#[trigger] h[j])[x as int] < h[at.1 as int][x as int] by {
            let i = n - 1 - j;
            assert(up.take(k)[i] == up[i]);
            assert(up[i] == (h[n - 1 - i][x as int], (x, (n - 1 - i) as usize)));
            assert(up.take(k)[i].0 < up[k].0);
        }
    }
}

/// A tree can be seen from outside the patch exactly if, in its row or
/// in its column, all the trees between it and an edge are lower.
pub proof fn lemma_visible(h: Seq<Seq<u8>>, x: usize, y: usize)
    requires
        wide_enough(h),
        x < h[0].len(),
        y < h.len(),
        h.len() <= usize::MAX,
        h[0].len() <= usize::MAX,
    ensures
        visible(h, (x, y)) <==> open_to_edge(h, x as int, y as int),
{
    let at = (x, y);
    let ways = all_ways(h);
    let rows = h.len() as int;
    lemma_sighted_in_row(h, y, at);
    lemma_sighted_in_column(h, x, at);
    assert(ways[2 * y] == Direction::Left { y });
    assert(ways[2 * y + 1] == Direction::Right { y });
    assert(ways[2 * rows + 2 * x] == Direction::Up { x });
    assert(ways[2 * rows + 2 * x + 1] == Direction::Down { x });
    if open_to_edge(h, x as int, y as int) {
        if forall|i: int| 0 <= i < x ==> (#[trigger] h[y as int][i]) < h[y as int][x as int] {
            assert(sighted(line(h, ways[2 * y + 1], None)).contains(at));
        } else if forall|i: int| x < i < h[0].len() ==> (#[trigger] h[y as int][i]) < h[y as int][x as int] {
            assert(sighted(line(h, ways[2 * y], None)).contains(at));
        } else if forall|j: int| 0 <= j < y ==> (#[trigger] h[j])[x as int] < h[y as int][x as int] {
            assert(sighted(line(h, ways[2 * rows + 2 * x + 1], None)).contains(at));
        } else {
            assert(sighted(line(h, ways[2 * rows + 2 * x], None)).contains(at));
        }
    }
    if visible(h, at) {
        let k = choose|k: int| 0 <= k < ways.len() && #[trigger] sighted(line(h, ways[k], None)).contains(at);
        match ways[k] {
            Direction::Left { y: row } => {
                lemma_sighted_in_row(h, row, at);
            },
            Direction::Right { y: row } => {
                lemma_sighted_in_row(h, row, at);
            },
            Direction::Up { x: column } => {
                lemma_sighted_in_column(h, column, at);
            },
            Direction::Down { x: column } => {
                lemma_sighted_in_column(h, column, at);
            },
        }
    }
}

/// Number of the first `w` trees of row `y` that can be seen from
/// outside.
pub open spec fn visible_in_row(h: Seq<Seq<u8>>, y: int, w: nat) -> nat
    decreases w,
{
    if w == 0 {
        0
    } else {
        visible_in_row(h, y, (w - 1) as nat) + if visible(h, ((w - 1) as usize, y as usize)) {
            1nat
        } else {
            0nat
        }
    }
}

/// Number of trees in the first `n` rows that can be seen from outside.
pub open spec fn visible_in_rows(h: Seq<Seq<u8>>, n: nat) -> nat
    decreases n,
{
    if n == 0 {
        0
    } else {
        visible_in_rows(h, (n - 1) as nat) + visible_in_row(h, n - 1, h[0].len())
    }
}

/// No more trees of a row can be seen than it has.
pub proof fn lemma_visible_in_row(h: Seq<Seq<u8>>, y: int, w: nat)
    ensures
        visible_in_row(h, y, w) <= w,
    decreases w,
{
    if w > 0 {
        lemma_visible_in_row(h, y, (w - 1) as nat);
    }
}

/// No more trees of the rows can be seen than they have.
pub proof fn lemma_visible_in_rows(h: Seq<Seq<u8>>, n: nat)
    ensures
        visible_in_rows(h, n) <= n * h[0].len(),
    decreases n,
{
    if n > 0 {
        lemma_visible_in_rows(h, (n - 1) as nat);
        lemma_visible_in_row(h, n - 1, h[0].len());
        assert((n - 1) * h[0].len() + h[0].len() == n * h[0].len()) by (nonlinear_arith);
    }
}

/// Marks the trees that can be seen on one more way.
fn mark_visible(grid: &Grid, direction: Direction, marks: &mut Vec<Vec<bool>>, Ghost(n): Ghost<int>)
    requires
        wide_enough(grid@),
        on_grid(grid@, direction, None),
        0 <= n < all_ways(grid@).len(),
        all_ways(grid@)[n] == direction,
        old(marks)@.len() == grid@.len(),
        forall|y: int| 0 <= y < grid@.len() ==> (#[trigger] old(marks)@[y])@.len() == grid@[0].len(),
        forall|y: int, x: int|
            0 <= y < grid@.len() && 0 <= x < grid@[0].len() ==> (#[trigger] old(marks)@[y]@[x])
                == seen_on(grid@, n, (x as usize, y as usize)),
    ensures
        final(marks)@.len() == grid@.len(),
        forall|y: int| 0 <= y < grid@.len() ==> (#[trigger] final(marks)@[y])@.len() == grid@[0].len(),
        forall|y: int, x: int|
            0 <= y < grid@.len() && 0 <= x < grid@[0].len() ==> (#[trigger] final(marks)@[y]@[x])
                == seen_on(grid@, n + 1, (x as usize, y as usize)),
{
    let found = grid.visible_trees(direction);
    let ghost way = sighted(line(grid@, direction, None));
    let height = grid.height();
    let width = grid.width();
    let mut i: usize = 0;
    while i < found.len()
        invariant
            i <= found@.len(),
            found@ == way,
            way == sighted(line(grid@, all_ways(grid@)[n], None)),
            0 <= n < all_ways(grid@).len(),
            height == grid@.len(),
            width == grid@[0].len(),
            marks@.len() == height,
            forall|y: int| 0 <= y < height ==> (#[trigger] marks@[y])@.len() == width,
            forall|y: int, x: int|
                0 <= y < height && 0 <= x < width ==> (#[trigger] marks@[y]@[x]) == (seen_on(
                    grid@,
                    n,
                    (x as usize, y as usize),
                ) || way.take(i as int).contains((x as usize, y as usize))),
        decreases found@.len() - i,
    {
        let (x, y) = found[i];
        let ghost before = way.take(i as int);
        let ghost after = way.take(i + 1);
        proof {
            assert(after == before.push((x, y)));
            assert forall|c: (usize, usize)| after.contains(c) <==> before.contains(c) || c == (x, y) by {
                if before.contains(c) {
                    let j = choose|j: int| 0 <= j < before.len() && before[j] == c;
                    assert(after[j] == c);
                }
                if c == (x, y) {
                    assert(after[i as int] == c);
                }
                if after.contains(c) {
                    let j = choose|j: int| 0 <= j < after.len() && after[j] == c;
                    if j < i {
                        assert(before[j] == c);
                    }
                }
            }
        }
        if y < height && x < width {
            marks[y][x] = true;
        }
        i += 1;
    }
    proof {
        assert(way.take(i as int) == way);
        assert forall|y: int, x: int| 0 <= y < height && 0 <= x < width implies (#[trigger] marks@[y]@[x])
            == seen_on(grid@, n + 1, (x as usize, y as usize)) by {
            let c = (x as usize, y as usize);
            if seen_on(grid@, n + 1, c) {
                let k = choose|k: int|
                    0 <= k < n + 1 && #[trigger] sighted(line(grid@, all_ways(grid@)[k], None)).contains(c);
                if k < n {
                    assert(seen_on(grid@, n, c));
                }
            }
            if seen_on(grid@, n, c) {
                let k = choose|k: int|
                    0 <= k < n && #[trigger] sighted(line(grid@, all_ways(grid@)[k], None)).contains(c);
                assert(0 <= k < n + 1);
            }
            if way.contains(c) {
                assert(sighted(line(grid@, all_ways(grid@)[n], None)).contains(c));
            }
        }
    }
}

/// Number of trees that can be seen from outside the patch.
pub fn count_visible(grid: &Grid) -> (r: usize)
    requires
        wide_enough(grid@),
        grid@.len() * grid@[0].len() <= usize::MAX,
    ensures
        r == visible_in_rows(grid@, grid@.len()),
{
    let height = grid.height();
    let width = grid.width();
    let mut marks: Vec<Vec<bool>> = filled(width, height, false);
    let ghost h = grid@;
    let mut y: usize = 0;
    assert(2 * height + 2 * width == all_ways(h).len());
    while y < height
        invariant
            y <= height,
            h == grid@,
            wide_enough(h),
            height == h.len(),
            width == h[0].len(),
            marks@.len() == height,
            forall|j: int| 0 <= j < height ==> (#[trigger] marks@[j])@.len() == width,
            forall|j: int, i: int|
                0 <= j < height && 0 <= i < width ==> (#[trigger] marks@[j]@[i]) == seen_on(
                    h,
                    2 * y,
                    (i as usize, j as usize),
                ),
        decreases height - y,
    {
        mark_visible(grid, Direction::Left { y }, &mut marks, Ghost(2 * y as int));
        mark_visible(grid, Direction::Right { y }, &mut marks, Ghost(2 * y + 1));
        y += 1;
    }
    let mut x: usize = 0;
    while x < width
        invariant
            x <= width,
            h == grid@,
            wide_enough(h),
            height == h.len(),
            width == h[0].len(),
            marks@.len() == height,
            forall|j: int| 0 <= j < height ==> (#[trigger] marks@[j])@.len() == width,
            forall|j: int, i: int|
                0 <= j < height && 0 <= i < width ==> (#[trigger] marks@[j]@[i]) == seen_on(
                    h,
                    2 * height + 2 * x,
                    (i as usize, j as usize),
                ),
        decreases width - x,
    {
        mark_visible(grid, Direction::Up { x }, &mut marks, Ghost(2 * height + 2 * x));
        mark_visible(grid, Direction::Down { x }, &mut marks, Ghost(2 * height + 2 * x + 1));
        x += 1;
    }
    let mut count: usize = 0;
    let mut y: usize = 0;
    while y < height
        invariant
            y <= height,
            height == h.len(),
            width == h[0].len(),
            height * width <= usize::MAX,
            marks@.len() == height,
            forall|j: int| 0 <= j < height ==> (#[trigger] marks@[j])@.len() == width,
            forall|j: int, i: int|
                0 <= j < height && 0 <= i < width ==> (#[trigger] marks@[j]@[i]) == visible(
                    h,
                    (i as usize, j as usize),
                ),
            count == visible_in_rows(h, y as nat),
        decreases height - y,
    {
        let ghost base = count;
        let mut x: usize = 0;
        proof {
            lemma_visible_in_rows(h, (y + 1) as nat);
            assert((y + 1) * width <= height * width) by (nonlinear_arith)
                requires
                    y + 1 <= height,
            ;
        }
        while x < width
            invariant
                x <= width,
                y < height,
                height == h.len(),
                width == h[0].len(),
                marks@.len() == height,
                marks@[y as int]@.len() == width,
                forall|i: int|
                    0 <= i < width ==> (#[trigger] marks@[y as int]@[i]) == visible(
                        h,
                        (i as usize, y as usize),
                    ),
                count == base + visible_in_row(h, y as int, x as nat),
                base + visible_in_row(h, y as int, width as nat) <= usize::MAX,
            decreases width - x,
        {
            proof {
                lemma_visible_in_row_grows(h, y as int, (x + 1) as nat, width as nat);
            }
            if marks[y][x] {
                count += 1;
            }
            x += 1;
        }
        y += 1;
    }
    count
}

/// Looking at more trees of a row, one sees no fewer.
pub proof fn lemma_visible_in_row_grows(h: Seq<Seq<u8>>, y: int, a: nat, b: nat)
    requires
        a <= b,
    ensures
        visible_in_row(h, y, a) <= visible_in_row(h, y, b),
    decreases b,
{
    if a < b {
        lemma_visible_in_row_grows(h, y, a, (b - 1) as nat);
    }
}

/// Number of trees of the patch in `input` that can be seen from outside.
pub fn star_one(input: &str) -> (r: usize)
    requires
        readable(input@),
        wide_enough(grid_of(input@)),
        grid_of(input@).len() * grid_of(input@)[0].len() <= usize::MAX,
    ensures
        r == visible_in_rows(grid_of(input@), grid_of(input@).len()),
{
    let grid = parse(input);
    count_visible(&grid)
}

/// How far one sees from a tree of height `height` along `l`, the trees on
/// the way: up to and including the first that is not lower, and nothing
/// where that is the first tree on the way.
pub open spec fn viewing(l: Seq<Tree>, height: u8) -> nat {
    let count = lower_run(l, height);
    if count == 0 {
        0
    } else if count < l.len() {
        count + 1
    } else {
        count
    }
}

/// The scenic score of the tree at column `x`, row `y`: the product of
/// how far one sees from it up, down, left and right.
pub open spec fn scenic(h: Seq<Seq<u8>>, x: usize, y: usize) -> nat {
    let height = h[y as int][x as int];
    viewing(line(h, Direction::Up { x }, Some(y)), height) * viewing(
        line(h, Direction::Down { x }, Some(y)),
        height,
    ) * viewing(line(h, Direction::Left { y }, Some(x)), height) * viewing(
        line(h, Direction::Right { y }, Some(x)),
        height,
    )
}

/// The longer side of the patch.
pub open spec fn longer_side(h: Seq<Seq<u8>>) -> nat {
    if h.len() >= h[0].len() {
        h.len()
    } else {
        h[0].len()
    }
}

/// How far one sees from the tree at `dim` on a line, and that it is no
/// farther than the patch is long.
fn do_score(grid: &Grid, dir: Direction, dim: usize, height: u8) -> (r: usize)
    requires
        wide_enough(grid@),
        on_grid(grid@, dir, Some(dim)),
        match dir {
            Direction::Down { .. } => dim < grid@.len(),
            Direction::Right { .. } => dim < grid@[0].len(),
            _ => true,
        },
    ensures
        r == viewing(line(grid@, dir, Some(dim)), height),
        r <= longer_side(grid@),
{
    let ghost l = line(grid@, dir, Some(dim));
    let all = grid.scan(dir, Some(dim), always);
    assert(all@ == l) by {
        assert(l.take(l.len() as int) == l);
    }
    let mut count: usize = 0;
    while count < all.len() && all[count].0 < height
        invariant
            count <= all@.len(),
            forall|i: int| 0 <= i < count ==> (#[trigger] all@[i]).0 < height,
        decreases all@.len() - count,
    {
        count += 1;
    }
    proof {
        lemma_lower_run_is(l, height, count as int);
        assert(l.len() <= longer_side(grid@));
    }
    if count == 0 {
        0
    } else if count < all.len() {
        count + 1
    } else {
        count
    }
}

/// The greatest scenic score among the trees of the patch.
pub fn best_view(grid: &Grid) -> (r: usize)
    requires
        wide_enough(grid@),
        longer_side(grid@) * longer_side(grid@) * longer_side(grid@) * longer_side(grid@) <= usize::MAX,
    ensures
        exists|x: usize, y: usize| y < grid@.len() && x < grid@[0].len() && #[trigger] scenic(grid@, x, y) == r,
        forall|x: usize, y: usize| y < grid@.len() && x < grid@[0].len() ==> #[trigger] scenic(grid@, x, y) <= r,
{
    let height = grid.height();
    let width = grid.width();
    let ghost h = grid@;
    let ghost side = longer_side(h);
    let mut best: usize = 0;
    let mut found: bool = false;
    let ghost mut at: (usize, usize) = (0, 0);
    let mut y: usize = 0;
    while y < height
        invariant
            y <= height,
            h == grid@,
            wide_enough(h),
            height == h.len(),
            width == h[0].len(),
            side == longer_side(h),
            side * side * side * side <= usize::MAX,
            found <==> y > 0,
            found ==> at.1 < height && at.0 < width && scenic(h, at.0, at.1) == best,
            forall|i: usize, j: usize| j < y && i < width ==> #[trigger] scenic(h, i, j) <= best,
        decreases height - y,
    {
        let mut x: usize = 0;
        while x < width
            invariant
                x <= width,
                y < height,
                h == grid@,
                wide_enough(h),
                height == h.len(),
                width == h[0].len(),
                side == longer_side(h),
                side * side * side * side <= usize::MAX,
                found <==> y > 0 || x > 0,
                found ==> at.1 < height && at.0 < width && scenic(h, at.0, at.1) == best,
                forall|i: usize, j: usize|
                    (j < y || (j == y && i < x)) && i < width ==> #[trigger] scenic(h, i, j) <= best,
            decreases width - x,
        {
            assert(h[y as int] == grid.grid@[y as int]@);
            assert(h[y as int].len() >= h[0].len());
            let tree = grid.grid[y][x];
            let up_score = do_score(grid, Direction::Up { x }, y, tree);
            let down_score = do_score(grid, Direction::Down { x }, y, tree);
            let left_score = do_score(grid, Direction::Left { y }, x, tree);
            let right_score = do_score(grid, Direction::Right { y }, x, tree);
            assert(up_score * down_score * left_score * right_score <= side * side * side * side)
                by (nonlinear_arith)
                requires
                    0 <= up_score <= side,
                    0 <= down_score <= side,
                    0 <= left_score <= side,
                    0 <= right_score <= side,
            ;
            assert(up_score * down_score <= side * side) by (nonlinear_arith)
                requires
                    0 <= up_score <= side,
                    0 <= down_score <= side,
            ;
            assert(up_score * down_score * left_score <= side * side * side) by (nonlinear_arith)
                requires
                    0 <= up_score <= side,
                    0 <= down_score <= side,
                    0 <= left_score <= side,
            ;
            assert(side * side <= side * side * side * side && side * side * side <= side * side
                * side * side) by (nonlinear_arith)
                requires
                    side >= 1,
            ;
            let score = up_score * down_score * left_score * right_score;
            assert(score == scenic(h, x, y));
            if !found || score > best {
                best = score;
                proof {
                    at = (x, y);
                }
            }
            found = true;
            x += 1;
        }
        y += 1;
    }
    best
}

/// The greatest scenic score among the trees of the patch in `input`.
pub fn star_two(input: &str) -> (r: usize)
    requires
        readable(input@),
        wide_enough(grid_of(input@)),
        longer_side(grid_of(input@)) * longer_side(grid_of(input@)) * longer_side(grid_of(input@))
            * longer_side(grid_of(input@)) <= usize::MAX,
    ensures
        exists|x: usize, y: usize|
            y < grid_of(input@).len() && x < grid_of(input@)[0].len() && #[trigger] scenic(
                grid_of(input@),
                x,
                y,
            ) == r,
        forall|x: usize, y: usize|
            y < grid_of(input@).len() && x < grid_of(input@)[0].len() ==> #[trigger] scenic(
                grid_of(input@),
                x,
                y,
            ) <= r,
{
    let grid = parse(input);
    best_view(&grid)
}

} // verus!
