use vstd::prelude::*;

verus! {

/// The highest elevation a cell can have.
pub const MAX_ELEVATION: u8 = 25;

/// A rectangular elevation map with a designated start and end cell.
///
/// A cell is addressed as `(column, row)`; `map[row][column]` is its elevation.
pub struct HeightMap {
    pub map: Vec<Vec<u8>>,
    pub start: (usize, usize),
    pub end: (usize, usize),
}

/// Why a set of rows, a start and an end do not form a height map.
#[derive(Debug, Clone, Copy, PartialEq, Eq, Structural)]
pub enum GridError {
    /// There is no row, or the first row has no cell.
    Empty,
    /// Some row is not as long as the first.
    Ragged,
    /// The number of cells does not fit the machine's word.
    TooLarge,
    /// Some elevation is above [`MAX_ELEVATION`].
    Elevation,
    /// The start cell lies outside the map.
    StartOutside,
    /// The end cell lies outside the map.
    EndOutside,
}

/// Two cells that share an edge.
pub open spec fn adjacent(a: (usize, usize), b: (usize, usize)) -> bool {
    ||| a.1 == b.1 && (a.0 + 1 == b.0 || b.0 + 1 == a.0)
    ||| a.0 == b.0 && (a.1 + 1 == b.1 || b.1 + 1 == a.1)
}

/// All rows of `rows` are as long as the first.
pub open spec fn rectangular(rows: Seq<Seq<u8>>) -> bool {
    forall|y: int| 0 <= y < rows.len() ==> (#[trigger] rows[y]).len() == rows[0].len()
}

/// No elevation in `rows` is above [`MAX_ELEVATION`].
pub open spec fn elevations_in_range(rows: Seq<Seq<u8>>) -> bool {
    forall|y: int, x: int|
        0 <= y < rows.len() && 0 <= x < rows[y].len() ==> (#[trigger] rows[y][x]) <= MAX_ELEVATION
}

/// What keeps the given rows and cells from being a height map, if
/// anything.
pub open spec fn grid_fault(rows: Seq<Seq<u8>>, start: (usize, usize), end: (usize, usize)) -> Option<
    GridError,
> {
    if rows.len() == 0 || rows[0].len() == 0 {
        Some(GridError::Empty)
    } else if !rectangular(rows) {
        Some(GridError::Ragged)
    } else if rows[0].len() * rows.len() >= usize::MAX {
        Some(GridError::TooLarge)
    } else if !elevations_in_range(rows) {
        Some(GridError::Elevation)
    } else if !(start.0 < rows[0].len() && start.1 < rows.len()) {
        Some(GridError::StartOutside)
    } else if !(end.0 < rows[0].len() && end.1 < rows.len()) {
        Some(GridError::EndOutside)
    } else {
        None
    }
}

/// The elevations of rows held in vectors.
pub open spec fn rows_view(map: Seq<Vec<u8>>) -> Seq<Seq<u8>> {
    map.map_values(|row: Vec<u8>| row@)
}

/// What a height map is: rows of elevations, a start and an end.
pub struct Terrain {
    pub rows: Seq<Seq<u8>>,
    pub start: (usize, usize),
    pub end: (usize, usize),
}

impl View for HeightMap {
    type V = Terrain;

    open spec fn view(&self) -> Terrain {
        Terrain { rows: rows_view(self.map@), start: self.start, end: self.end }
    }
}

impl Terrain {
    /// Number of columns.
    pub open spec fn spec_width(self) -> nat {
        self.rows[0].len()
    }

    /// Number of rows.
    pub open spec fn spec_height(self) -> nat {
        self.rows.len()
    }

    /// Whether `c` addresses a cell of the map.
    pub open spec fn contains(self, c: (usize, usize)) -> bool {
        c.0 < self.spec_width() && c.1 < self.spec_height()
    }

    /// Elevation of the cell `c`.
    pub open spec fn spec_elevation(self, c: (usize, usize)) -> u8 {
        self.rows[c.1 as int][c.0 as int]
    }

    /// The map is a non-empty rectangle whose cells can be counted in a
    /// machine word, every elevation is in range, and start and end are
    /// cells of it.
    pub open spec fn wf(self) -> bool {
        grid_fault(self.rows, self.start, self.end) is None
    }

    /// A move from `from` to the neighbouring cell `to` that climbs at most
    /// one unit of elevation.
    pub open spec fn legal_move(self, from: (usize, usize), to: (usize, usize)) -> bool {
        &&& self.contains(from)
        &&& self.contains(to)
        &&& adjacent(from, to)
        &&& self.spec_elevation(to) - self.spec_elevation(from) <= 1
    }

    /// `c` if a move from `c` to `to` is legal, else nothing.
    pub open spec fn if_enters(self, c: (int, int), to: (usize, usize)) -> Seq<(usize, usize)> {
        if 0 <= c.0 < self.spec_width() && 0 <= c.1 < self.spec_height() && self.spec_elevation(to)
            - self.spec_elevation((c.0 as usize, c.1 as usize)) <= 1 {
            seq![(c.0 as usize, c.1 as usize)]
        } else {
            seq![]
        }
    }

    /// The cells from which a legal move leads to `to`, in the order left,
    /// up, right, down.
    pub open spec fn neighbors_backwards(self, to: (usize, usize)) -> Seq<(usize, usize)> {
        self.if_enters((to.0 - 1, to.1 as int), to) + self.if_enters((to.0 as int, to.1 - 1), to)
            + self.if_enters((to.0 + 1, to.1 as int), to) + self.if_enters(
            (to.0 as int, to.1 + 1),
            to,
        )
    }

    /// The reverse neighbours of a cell are exactly the cells with a legal
    /// move into it.
    pub proof fn lemma_neighbors_backwards(self, to: (usize, usize), n: (usize, usize))
        requires
            self.wf(),
            self.contains(to),
            self.spec_width() <= usize::MAX,
            self.spec_height() <= usize::MAX,
        ensures
            self.neighbors_backwards(to).contains(n) <==> self.legal_move(n, to),
    {
        let a = self.if_enters((to.0 - 1, to.1 as int), to);
        let b = self.if_enters((to.0 as int, to.1 - 1), to);
        let c = self.if_enters((to.0 + 1, to.1 as int), to);
        let d = self.if_enters((to.0 as int, to.1 + 1), to);
        let s = self.neighbors_backwards(to);
        assert(s == a + b + c + d);
        if self.legal_move(n, to) {
            if n.1 == to.1 && n.0 + 1 == to.0 {
                assert(a[0] == n);
                assert(s[0] == n);
            } else if n.0 == to.0 && n.1 + 1 == to.1 {
                assert(b[0] == n);
                assert(s[a.len() as int] == n);
            } else if n.1 == to.1 && to.0 + 1 == n.0 {
                assert(c[0] == n);
                assert(s[(a.len() + b.len()) as int] == n);
            } else {
                assert(d[0] == n);
                assert(s[(a.len() + b.len() + c.len()) as int] == n);
            }
        }
        if s.contains(n) {
            let i = choose|i: int| 0 <= i < s.len() && s[i] == n;
            if i < a.len() {
                assert(a[i] == n);
                assert(n.0 + 1 == to.0 && n.1 == to.1);
            } else if i < a.len() + b.len() {
                assert(b[i - a.len()] == n);
                assert(n.0 == to.0 && n.1 + 1 == to.1);
            } else if i < a.len() + b.len() + c.len() {
                assert(c[i - a.len() - b.len()] == n);
                assert(n.0 == to.0 + 1 && n.1 == to.1);
            } else {
                assert(d[i - a.len() - b.len() - c.len()] == n);
                assert(n.0 == to.0 && n.1 == to.1 + 1);
            }
        }
    }

}

impl HeightMap {
    /// Builds a height map, or says what is wrong with the parts.
    pub fn new(map: Vec<Vec<u8>>, start: (usize, usize), end: (usize, usize)) -> (r: Result<
        HeightMap,
        GridError,
    >)
        ensures
            match r {
                Ok(m) => grid_fault(rows_view(map@), start, end) is None && m.map == map && m.start
                    == start && m.end == end && m@.wf(),
                Err(e) => grid_fault(rows_view(map@), start, end) == Some(e),
            },
    {
        if map.len() == 0 || map[0].len() == 0 {
            return Err(GridError::Empty);
        }
        let width = map[0].len();
        let height = map.len();
        let mut y: usize = 0;
        while y < height
            invariant
                y <= height,
                height == map@.len(),
                width == map@[0]@.len(),
                width > 0,
                height > 0,
                forall|j: int| 0 <= j < y ==> (#[trigger] map@[j])@.len() == width,
            decreases height - y,
        {
            if map[y].len() != width {
                assert(rows_view(map@)[y as int].len() != rows_view(map@)[0].len());
                return Err(GridError::Ragged);
            }
            y += 1;
        }
        assert(rectangular(rows_view(map@)));
        match width.checked_mul(height) {
            None => {
                return Err(GridError::TooLarge);
            },
            Some(cells) => {
                if cells == usize::MAX {
                    return Err(GridError::TooLarge);
                }
            },
        }
        let mut y: usize = 0;
        while y < height
            invariant
                y <= height,
                height == map@.len(),
                width == map@[0]@.len(),
                width > 0,
                width * height < usize::MAX,
                rectangular(rows_view(map@)),
                forall|j: int, i: int|
                    0 <= j < y && 0 <= i < width ==> (#[trigger] map@[j]@[i]) <= MAX_ELEVATION,
            decreases height - y,
        {
            assert(rows_view(map@)[y as int] == map@[y as int]@);
            let mut x: usize = 0;
            while x < width
                invariant
                    x <= width,
                    y < height,
                    height == map@.len(),
                    width == map@[y as int]@.len(),
                    width == map@[0]@.len(),
                    width > 0,
                    width * height < usize::MAX,
                    rectangular(rows_view(map@)),
                    forall|i: int| 0 <= i < x ==> (#[trigger] map@[y as int]@[i]) <= MAX_ELEVATION,
                decreases width - x,
            {
                if map[y][x] > MAX_ELEVATION {
                    assert(rows_view(map@)[y as int][x as int] > MAX_ELEVATION);
                    return Err(GridError::Elevation);
                }
                x += 1;
            }
            y += 1;
        }
        assert(elevations_in_range(rows_view(map@)));
        if !(start.0 < width && start.1 < height) {
            return Err(GridError::StartOutside);
        }
        if !(end.0 < width && end.1 < height) {
            return Err(GridError::EndOutside);
        }
        Ok(HeightMap { map, start, end })
    }

    /// Number of columns.
    pub fn width(&self) -> (w: usize)
        requires
            self@.wf(),
        ensures
            w == self@.spec_width(),
            w > 0,
    {
        assert(self@.rows[0] == self.map@[0]@);
        self.map[0].len()
    }

    /// Number of rows.
    pub fn height(&self) -> (h: usize)
        requires
            self@.wf(),
        ensures
            h == self@.spec_height(),
            h > 0,
    {
        self.map.len()
    }

    /// Elevation of the cell `c`.
    pub fn elevation(&self, c: (usize, usize)) -> (e: u8)
        requires
            self@.wf(),
            self@.contains(c),
        ensures
            e == self@.spec_elevation(c),
            e <= MAX_ELEVATION,
    {
        assert(self@.rows[c.1 as int] == self.map@[c.1 as int]@);
        assert(self@.rows[0] == self.map@[0]@);
        self.map[c.1][c.0]
    }

    /// The cells from which one legal move leads to `from`: the edges of the
    /// move graph that end in `from`, walked backwards.
    pub fn valid_neighbors_backwards(&self, from: (usize, usize)) -> (result: Vec<(usize, usize)>)
        requires
            self@.wf(),
            self@.contains(from),
        ensures
            result@ == self@.neighbors_backwards(from),
            forall|n: (usize, usize)| result@.contains(n) <==> self@.legal_move(n, from),
    {
        let current_height = self.elevation(from);
        let (x, y) = from;
        let mut result: Vec<(usize, usize)> = Vec::with_capacity(4);
        if x > 0 && current_height <= self.elevation((x - 1, y)) + 1 {
            result.push((x - 1, y));
        }
        assert(result@ == self@.if_enters((from.0 - 1, from.1 as int), from));
        if y > 0 && current_height <= self.elevation((x, y - 1)) + 1 {
            result.push((x, y - 1));
        }
        assert(result@ == self@.if_enters((from.0 - 1, from.1 as int), from) + self@.if_enters(
            (from.0 as int, from.1 - 1),
            from,
        ));
        if x < self.width() - 1 && current_height <= self.elevation((x + 1, y)) + 1 {
            result.push((x + 1, y));
        }
        assert(result@ == self@.if_enters((from.0 - 1, from.1 as int), from) + self@.if_enters(
            (from.0 as int, from.1 - 1),
            from,
        ) + self@.if_enters((from.0 + 1, from.1 as int), from));
        if y < self.height() - 1 && current_height <= self.elevation((x, y + 1)) + 1 {
            result.push((x, y + 1));
        }
        assert(result@ == self@.neighbors_backwards(from));
        proof {
            assert forall|n: (usize, usize)| result@.contains(n) <==> self@.legal_move(n, from) by {
                self@.lemma_neighbors_backwards(from, n);
            }
        }
        result
    }
}

} // verus!
