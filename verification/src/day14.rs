use crate::math::Vector2;
use crate::tables::filled;
use crate::text::{
    around, entries, entries_of, integer_of, parse_i64, parts_of, split_by_pair, split_once, to_chars, trim, trimmed,
};
use vstd::prelude::*;

verus! {

/// What lies below the lowest rock: nothing, or a floor two units down.
#[derive(Debug, Clone, Copy, PartialEq, Eq, Structural)]
pub enum Mode {
    Abyss,
    Floor,
}

/// What fills a place of the cave.
#[derive(Debug, Clone, Copy, PartialEq, Eq, Structural)]
pub enum Location {
    Rock,
    Sand,
}

impl Location {
    pub fn is_sand(&self) -> (r: bool)
        ensures
            r == (*self == Location::Sand),
    {
        matches!(self, Location::Sand)
    }
}

/// A cave, as far as the fall of the sand goes: the places that are
/// filled, by column and depth, the depth of the lowest rock, what lies
/// below it, the place at which the sand pours in, whether sand rests
/// there, and the number of places at which sand rests.
pub struct Cave {
    pub occupied: Set<(int, int)>,
    pub max_y: int,
    pub has_floor: bool,
    pub source: (int, int),
    pub source_sand: bool,
    pub sand: nat,
}

impl Cave {
    /// The depth of the floor, where there is one.
    pub open spec fn floor(self) -> int {
        self.max_y + 2
    }

    /// Sand cannot come to the place `p`.
    pub open spec fn blocked(self, p: (int, int)) -> bool {
        self.occupied.contains(p) || (self.has_floor && p.1 == self.floor())
    }

    /// Where sand at `p` falls next: straight down, else down and to the
    /// left, else down and to the right; nowhere if all three are
    /// blocked.
    pub open spec fn fall(self, p: (int, int)) -> Option<(int, int)> {
        if !self.blocked((p.0, p.1 + 1)) {
            Some((p.0, p.1 + 1))
        } else if !self.blocked((p.0 - 1, p.1 + 1)) {
            Some((p.0 - 1, p.1 + 1))
        } else if !self.blocked((p.0 + 1, p.1 + 1)) {
            Some((p.0 + 1, p.1 + 1))
        } else {
            None
        }
    }

    /// Where sand that is at `p` comes to rest; nowhere if it falls past
    /// the lowest rock of a cave without floor, or is below the floor.
    pub open spec fn rest(self, p: (int, int)) -> Option<(int, int)>
        decreases self.floor() - p.1,
    {
        if (!self.has_floor && p.1 >= self.max_y) || p.1 >= self.floor() {
            None
        } else {
            match self.fall(p) {
                Some(q) => self.rest(q),
                None => Some(p),
            }
        }
    }

    /// The cave after one more unit of sand has poured in, and whether
    /// more can follow. A unit that falls past the lowest rock changes
    /// nothing, and none follows. A unit that comes to rest fills its
    /// place with sand; the source is the one place where it can rest on
    /// what is filled, and sand on sand there adds nothing. Where there is
    /// a floor, more follows as long as the source is not filled.
    pub open spec fn after_unit(self) -> (Cave, bool) {
        match self.rest(self.source) {
            None => (self, false),
            Some(p) => {
                let added = !self.occupied.contains(p) || (p == self.source && !self.source_sand);
                let next = Cave {
                    occupied: self.occupied.insert(p),
                    sand: if added {
                        self.sand + 1
                    } else {
                        self.sand
                    },
                    source_sand: self.source_sand || p == self.source,
                    ..self
                };
                (next, !self.has_floor || !next.occupied.contains(self.source))
            },
        }
    }

    /// Within `units` units of sand one comes after which no more can
    /// follow.
    pub open spec fn halts(self, units: nat) -> bool
        decreases units,
    {
        if units == 0 {
            false
        } else if self.after_unit().1 {
            self.after_unit().0.halts((units - 1) as nat)
        } else {
            true
        }
    }

    /// The cave after sand has poured in until no more can follow, or
    /// `units` units have.
    pub open spec fn filled(self, units: nat) -> Cave
        decreases units,
    {
        if units == 0 {
            self
        } else if self.after_unit().1 {
            self.after_unit().0.filled((units - 1) as nat)
        } else {
            self.after_unit().0
        }
    }

    /// How far below the source sand can come: down to the floor.
    pub open spec fn reach(self) -> int {
        if self.floor() > self.source.1 {
            self.floor() - self.source.1
        } else {
            0
        }
    }

    /// Sand that pours in at the source can be at `p`: at most `depth`
    /// below the source, and no farther to the side than it is below it.
    pub open spec fn within_reach(self, p: (int, int), depth: int) -> bool {
        0 <= p.1 - self.source.1 <= depth && -(p.1 - self.source.1) <= p.0 - self.source.0 <= p.1
            - self.source.1
    }

    /// The number of places that sand can come to: no more units can
    /// come to rest.
    pub open spec fn room(self) -> nat {
        ((2 * self.reach() + 1) * (self.reach() + 1)) as nat
    }

    /// The places that sand can come to can be counted in the machine's
    /// word, their coordinates fit 64 bits, and the source lies above the
    /// floor, where there is one.
    pub open spec fn fits(self) -> bool {
        &&& self.has_floor ==> self.source.1 < self.floor()
        &&& i64::MIN <= self.max_y && self.floor() <= i64::MAX
        &&& i64::MIN <= self.source.0 - self.reach() && self.source.0 + self.reach() <= i64::MAX
        &&& i64::MIN <= self.source.1 <= i64::MAX
        &&& (2 * self.reach() + 1) * (self.reach() + 1) <= usize::MAX
    }

    /// A cave that fits reaches less than 32 bits far.
    pub proof fn lemma_reach(self)
        requires
            self.fits(),
        ensures
            0 <= self.reach() <= 0xffff_ffff,
            self.reach() + 1 <= usize::MAX,
            2 * self.reach() + 1 <= usize::MAX,
    {
        let h = self.reach();
        assert(h <= 0xffff_ffff && h + 1 <= (2 * h + 1) * (h + 1) && 2 * h + 1 <= (2 * h + 1) * (h + 1))
            by (nonlinear_arith)
            requires
                0 <= h,
                (2 * h + 1) * (h + 1) <= 0xffff_ffff_ffff_ffff,
        ;
    }
}

/// The places that the rocks fill.
pub open spec fn rock_set(rocks: Seq<Vector2>) -> Set<(int, int)> {
    Set::new(|p: (int, int)| exists|i: int| 0 <= i < rocks.len() && (#[trigger] rocks[i]).x == p.0 && rocks[i].y == p.1)
}

/// The depth of the lowest rock; zero where there is no rock.
pub open spec fn lowest(rocks: Seq<Vector2>) -> int
    decreases rocks.len(),
{
    if rocks.len() == 0 {
        0
    } else if rocks.len() == 1 {
        rocks[0].y as int
    } else if lowest(rocks.drop_last()) >= rocks.last().y {
        lowest(rocks.drop_last())
    } else {
        rocks.last().y as int
    }
}

/// The cave that the rocks form, before any sand pours in at `source`.
pub open spec fn cave_of(rocks: Seq<Vector2>, source: Vector2, mode: Mode) -> Cave {
    Cave {
        occupied: rock_set(rocks),
        max_y: lowest(rocks),
        has_floor: mode == Mode::Floor,
        source: (source.x as int, source.y as int),
        source_sand: false,
        sand: 0,
    }
}

/// A cave in which sand pours.
pub struct CaveMap {
    /// For each depth from the source down to the floor, for each column
    /// that sand can reach, whether the place is filled.
    pub cells: Vec<Vec<bool>>,
    /// The rocks of the cave.
    pub rocks: Vec<Vector2>,
    pub max_y: i64,
    pub spawn_location: Vector2,
    pub mode: Mode,
    /// Whether sand rests where the sand pours in.
    pub source_sand: bool,
    pub sand: usize,
    pub occupied: Ghost<Set<(int, int)>>,
}

impl View for CaveMap {
    type V = Cave;

    open spec fn view(&self) -> Cave {
        Cave {
            occupied: self.occupied@,
            max_y: self.max_y as int,
            has_floor: self.mode == Mode::Floor,
            source: (self.spawn_location.x as int, self.spawn_location.y as int),
            source_sand: self.source_sand,
            sand: self.sand as nat,
        }
    }
}

impl CaveMap {
    /// Whether the cells tell of the place `p`.
    pub open spec fn stored(&self, p: (int, int)) -> bool {
        let h = self@.reach();
        0 <= p.1 - self@.source.1 <= h && -h <= p.0 - self@.source.0 <= h
    }

    /// The cave fits; the cells tell, for every place down to the floor
    /// that sand can reach, whether it is filled; every other place is
    /// filled exactly if a rock lies there.
    pub open spec fn wf(&self) -> bool {
        let h = self@.reach();
        &&& self@.fits()
        &&& self.cells@.len() == h + 1
        &&& forall|y: int| 0 <= y <= h ==> (#[trigger] self.cells@[y])@.len() == 2 * h + 1
        &&& forall|x: int, y: int|
            0 <= y <= h && 0 <= x <= 2 * h ==> (#[trigger] self.cells@[y]@[x]) == self.occupied@.contains(
                (x - h + self@.source.0, y + self@.source.1),
            )
        &&& forall|p: (int, int)|
            !self.stored(p) ==> (#[trigger] self.occupied@.contains(p)) == rock_set(self.rocks@).contains(p)
    }

    /// The cell of a stored place tells whether the place is filled.
    pub proof fn lemma_cell(&self, p: (int, int))
        requires
            self.wf(),
            self.stored(p),
        ensures
            0 <= p.1 - self@.source.1 < self.cells@.len(),
            0 <= p.0 - self@.source.0 + self@.reach() < self.cells@[p.1 - self@.source.1]@.len(),
            self.cells@[p.1 - self@.source.1]@[p.0 - self@.source.0 + self@.reach()] == self.occupied@.contains(p),
    {
        let h = self@.reach();
        let y = p.1 - self@.source.1;
        let x = p.0 - self@.source.0 + h;
        assert(self.cells@[y]@.len() == 2 * h + 1);
        assert(self.cells@[y]@[x] == self.occupied@.contains((x - h + self@.source.0, y + self@.source.1)));
    }

    /// How far below the source sand can come.
    fn reach(&self) -> (h: usize)
        requires
            self@.fits(),
        ensures
            h == self@.reach(),
            h <= 0xffff_ffff,
            2 * h + 1 <= usize::MAX,
    {
        proof {
            self@.lemma_reach();
        }
        let floor = self.max_y + 2;
        if floor > self.spawn_location.y {
            (floor - self.spawn_location.y) as usize
        } else {
            0
        }
    }

    /// The cave that the rocks form.
    pub fn new(rocks: Vec<Vector2>, spawn_location: Vector2, mode: Mode) -> (m: Self)
        requires
            cave_of(rocks@, spawn_location, mode).fits(),
        ensures
            m.wf(),
            m@ == cave_of(rocks@, spawn_location, mode),
            m.rocks == rocks,
    {
        let mut max_y: i64 = 0;
        let mut i: usize = 0;
        assert(rocks@.take(0).len() == 0);
        while i < rocks.len()
            invariant
                i <= rocks@.len(),
                max_y == lowest(rocks@.take(i as int)),
            decreases rocks@.len() - i,
        {
            proof {
                assert(rocks@.take(i + 1).drop_last() == rocks@.take(i as int));
                assert(rocks@.take(i + 1).last() == rocks@[i as int]);
                if i == 0 {
                    assert(rocks@.take(1)[0] == rocks@[0]);
                }
            }
            if i == 0 || rocks[i].y > max_y {
                max_y = rocks[i].y;
            }
            i += 1;
        }
        assert(rocks@.take(i as int) == rocks@);
        let ghost cave = cave_of(rocks@, spawn_location, mode);
        proof {
            cave.lemma_reach();
        }
        let floor = max_y + 2;
        let h: usize = if floor > spawn_location.y {
            (floor - spawn_location.y) as usize
        } else {
            0
        };
        let sx = spawn_location.x;
        let sy = spawn_location.y;
        let mut cells: Vec<Vec<bool>> = filled(2 * h + 1, h + 1, false);
        let mut i: usize = 0;
        while i < rocks.len()
            invariant
                i <= rocks@.len(),
                h == cave.reach(),
                h <= 0xffff_ffff,
                2 * h + 1 <= usize::MAX,
                cave.fits(),
                cave.source == (sx as int, sy as int),
                cells@.len() == h + 1,
                forall|y: int| 0 <= y <= h ==> (#[trigger] cells@[y])@.len() == 2 * h + 1,
                forall|x: int, y: int|
                    0 <= y <= h && 0 <= x <= 2 * h ==> (#[trigger] cells@[y]@[x]) == rock_set(
                        rocks@.take(i as int),
                    ).contains((x - h + sx, y + sy)),
            decreases rocks@.len() - i,
        {
            let rock = rocks[i];
            let ghost before = rock_set(rocks@.take(i as int));
            let ghost after = rock_set(rocks@.take(i + 1));
            proof {
                assert forall|p: (int, int)| after.contains(p) <==> before.contains(p) || p == (
                    rock.x as int,
                    rock.y as int,
                ) by {
                    let a = rocks@.take(i as int);
                    let b = rocks@.take(i + 1);
                    if before.contains(p) {
                        let j = choose|j: int| 0 <= j < a.len() && (#[trigger] a[j]).x == p.0 && a[j].y == p.1;
                        assert(b[j] == a[j]);
                    }
                    if p == (rock.x as int, rock.y as int) {
                        assert(b[i as int] == rock);
                    }
                    if after.contains(p) {
                        let j = choose|j: int| 0 <= j < b.len() && (#[trigger] b[j]).x == p.0 && b[j].y == p.1;
                        if j < i {
                            assert(a[j] == b[j]);
                        }
                    }
                }
            }
            if sy <= rock.y && rock.y <= sy + h as i64 && sx - h as i64 <= rock.x && rock.x <= sx + h as i64 {
                let row = (rock.y - sy) as usize;
                let column = (rock.x - sx + h as i64) as usize;
                cells[row][column] = true;
            }
            proof {
                assert forall|x: int, y: int| 0 <= y <= h && 0 <= x <= 2 * h implies (#[trigger] cells@[y]@[x])
                    == after.contains((x - h + sx, y + sy)) by {
                    assert(before.contains((x - h + sx, y + sy)) || (x - h + sx, y + sy) == (
                        rock.x as int,
                        rock.y as int,
                    ) || !after.contains((x - h + sx, y + sy)));
                }
            }
            i += 1;
        }
        assert(rocks@.take(i as int) == rocks@);
        CaveMap {
            cells,
            rocks,
            max_y,
            spawn_location,
            mode,
            source_sand: false,
            sand: 0,
            occupied: Ghost(rock_set(rocks@)),
        }
    }

    /// Whether sand cannot come to the place in column `x` at depth `y`.
    pub fn is_blocked(&self, x: i64, y: i64) -> (r: bool)
        requires
            self.wf(),
        ensures
            r == self@.blocked((x as int, y as int)),
    {
        let h = self.reach() as i64;
        let sx = self.spawn_location.x;
        let sy = self.spawn_location.y;
        if matches!(self.mode, Mode::Floor) && y == self.max_y + 2 {
            return true;
        }
        if sy <= y && y <= sy + h && sx - h <= x && x <= sx + h {
            proof {
                self.lemma_cell((x as int, y as int));
            }
            let row = (y - sy) as usize;
            let column = (x - sx + h) as usize;
            return self.cells[row][column];
        }
        assert(!self.stored((x as int, y as int)));
        let mut i: usize = 0;
        while i < self.rocks.len()
            invariant
                i <= self.rocks@.len(),
                self.wf(),
                !self.stored((x as int, y as int)),
                !(self.mode == Mode::Floor && y == self.max_y + 2),
                forall|j: int| 0 <= j < i ==> !((#[trigger] self.rocks@[j]).x == x && self.rocks@[j].y == y),
            decreases self.rocks@.len() - i,
        {
            if self.rocks[i].x == x && self.rocks[i].y == y {
                assert(rock_set(self.rocks@).contains((x as int, y as int)));
                return true;
            }
            i += 1;
        }
        assert(!rock_set(self.rocks@).contains((x as int, y as int)));
        false
    }

    /// Where a unit of sand falls next.
    pub fn fall_location(&self, location: Vector2) -> (r: Option<Vector2>)
        requires
            self.wf(),
            location.y < i64::MAX,
            i64::MIN < location.x < i64::MAX,
        ensures
            match r {
                Some(q) => self@.fall((location.x as int, location.y as int)) == Some((q.x as int, q.y as int)),
                None => self@.fall((location.x as int, location.y as int)) is None,
            },
    {
        if !self.is_blocked(location.x, location.y + 1) {
            return Some(Vector2::new(location.x, location.y + 1));
        }
        if !self.is_blocked(location.x - 1, location.y + 1) {
            return Some(Vector2::new(location.x - 1, location.y + 1));
        }
        if !self.is_blocked(location.x + 1, location.y + 1) {
            return Some(Vector2::new(location.x + 1, location.y + 1));
        }
        None
    }

    /// Lets one unit of sand pour in. Returns whether more can follow.
    pub fn tick(&mut self) -> (more: bool)
        requires
            old(self).wf(),
            old(self).sand < usize::MAX,
        ensures
            final(self).wf(),
            (final(self)@, more) == old(self)@.after_unit(),
            final(self).rocks == old(self).rocks,
    {
        let ghost cave = self@;
        let h = self.reach() as i64;
        let sx = self.spawn_location.x;
        let sy = self.spawn_location.y;
        let floor = self.max_y + 2;
        let mut location = self.spawn_location;
        loop
            invariant_except_break
                self.wf(),
                self@ == cave,
                *self == *old(self),
                h == cave.reach(),
                floor == cave.floor(),
                cave.source == (sx as int, sy as int),
                cave.within_reach((location.x as int, location.y as int), location.y - sy),
                location == self.spawn_location || !cave.occupied.contains((location.x as int, location.y as int)),
                cave.rest(cave.source) == cave.rest((location.x as int, location.y as int)),
            ensures
                self.wf(),
                self@ == cave,
                *self == *old(self),
                h == cave.reach(),
                cave.source == (sx as int, sy as int),
                location.y < floor,
                cave.within_reach((location.x as int, location.y as int), location.y - sy),
                location == self.spawn_location || !cave.occupied.contains((location.x as int, location.y as int)),
                cave.rest(cave.source) == Some((location.x as int, location.y as int)),
            decreases self.max_y + 2 - location.y,
        {
            if (matches!(self.mode, Mode::Abyss) && location.y >= self.max_y) || location.y >= floor {
                return false;
            }
            match self.fall_location(location) {
                Some(next) => {
                    location = next;
                },
                None => {
                    break ;
                },
            }
        }
        proof {
            assert(self.stored((location.x as int, location.y as int)));
            assert(self.stored(cave.source));
            self.lemma_cell((location.x as int, location.y as int));
            self.lemma_cell(cave.source);
        }
        let row = (location.y - sy) as usize;
        let column = (location.x - sx + h) as usize;
        let at_source = location.x == sx && location.y == sy;
        let ghost before = self.occupied@;
        if !self.cells[row][column] {
            self.cells[row][column] = true;
            self.sand = self.sand + 1;
        } else if !self.source_sand {
            self.sand = self.sand + 1;
        }
        if at_source {
            self.source_sand = true;
        }
        self.occupied = Ghost(self.occupied@.insert((location.x as int, location.y as int)));
        proof {
            assert forall|x: int, y: int| 0 <= y <= h && 0 <= x <= 2 * h implies (#[trigger] self.cells@[y]@[x])
                == self.occupied@.contains((x - h + sx, y + sy)) by {
                assert(old(self).cells@[y]@[x] == before.contains((x - h + sx, y + sy)));
                if y == row && x == column {
                    assert((x - h + sx, y + sy) == (location.x as int, location.y as int));
                }
            }
            assert forall|p: (int, int)| !self.stored(p) implies (#[trigger] self.occupied@.contains(p))
                == rock_set(self.rocks@).contains(p) by {
                assert(old(self).stored(p) == self.stored(p));
                assert(before.contains(p) == rock_set(self.rocks@).contains(p));
            }
            self.lemma_cell(cave.source);
        }
        if matches!(self.mode, Mode::Floor) {
            !self.cells[0][h as usize]
        } else {
            true
        }
    }

    /// Number of places at which sand has come to rest.
    pub fn sand_at_rest(&self) -> (r: usize)
        ensures
            r == self@.sand,
    {
        self.sand
    }

    /// Lets sand pour in until no more can follow.
    pub fn fill(&mut self)
        requires
            old(self).wf(),
            old(self).sand == 0,
        ensures
            final(self).wf(),
            final(self)@ == old(self)@.filled(old(self)@.room()),
            final(self).rocks == old(self).rocks,
    {
        let h = self.reach();
        proof {
            self@.lemma_reach();
        }
        let room = (2 * h + 1) * (h + 1);
        let ghost start = self@;
        let mut left: usize = room;
        let mut more = true;
        while more && left > 0
            invariant
                self.wf(),
                self.rocks == old(self).rocks,
                left <= room,
                self.sand <= room - left,
                more ==> self@.filled(left as nat) == start.filled(room as nat),
                !more ==> self@ == start.filled(room as nat),
            decreases left,
        {
            more = self.tick();
            left -= 1;
        }
    }
}

/// The point that a text stands for: two integers with a comma between
/// them.
pub open spec fn point_of(part: Seq<char>) -> Option<Vector2> {
    match around(part, ',') {
        None => None,
        Some((x, y)) => match (integer_of(x), integer_of(y)) {
            (Some(x), Some(y)) => Some(Vector2 { x, y }),
            _ => None,
        },
    }
}

/// Reads a point.
pub fn parse_point(part: &[char]) -> (r: Option<Vector2>)
    ensures
        r == point_of(part@),
{
    match split_once(part, ',') {
        None => None,
        Some((x, y)) => match (parse_i64(x), parse_i64(y)) {
            (Some(x), Some(y)) => Some(Vector2::new(x, y)),
            _ => None,
        },
    }
}

/// The lesser and the greater of two numbers.
pub fn make_range(a: i64, b: i64) -> (r: (i64, i64))
    ensures
        r == (if a <= b {
            (a, b)
        } else {
            (b, a)
        }),
{
    if a <= b {
        (a, b)
    } else {
        (b, a)
    }
}

/// The two points differ and lie in one row or one column.
pub open spec fn straight(p: Vector2, q: Vector2) -> bool {
    (p.x == q.x && p.y != q.y) || (p.y == q.y && p.x != q.x)
}

/// The places on the straight line from `p` to `q`, both included, by
/// ascending coordinate.
pub open spec fn between(p: Vector2, q: Vector2) -> Seq<Vector2> {
    if p.x == q.x {
        let low = if p.y <= q.y {
            p.y
        } else {
            q.y
        };
        let high = if p.y <= q.y {
            q.y
        } else {
            p.y
        };
        Seq::new((high - low + 1) as nat, |i: int| Vector2 { x: p.x, y: (low + i) as i64 })
    } else {
        let low = if p.x <= q.x {
            p.x
        } else {
            q.x
        };
        let high = if p.x <= q.x {
            q.x
        } else {
            p.x
        };
        Seq::new((high - low + 1) as nat, |i: int| Vector2 { x: (low + i) as i64, y: p.y })
    }
}

/// The places on the lines that join the first `n + 1` of the points,
/// each to the next.
pub open spec fn along(points: Seq<Vector2>, n: nat) -> Seq<Vector2>
    decreases n,
{
    if n == 0 {
        seq![]
    } else {
        along(points, (n - 1) as nat) + between(points[n - 1], points[n as int])
    }
}

/// The corners of the path of rock that a line of text describes: the
/// parts between its arrows.
pub open spec fn corners_of(line: Seq<char>) -> Seq<Option<Vector2>> {
    parts_of(line, '-', '>').map_values(|part: Seq<char>| point_of(trimmed(part)))
}

/// The line describes a path of rock: its parts are points, and each
/// point lies straight from the one before.
#[verifier::opaque]
pub open spec fn path_ok(line: Seq<char>) -> bool {
    let c = corners_of(line);
    &&& forall|i: int| 0 <= i < c.len() ==> (#[trigger] c[i]) is Some
    &&& forall|i: int| 0 < i < c.len() ==> straight(c[i - 1]->0, (#[trigger] c[i])->0)
}

/// The rocks of the path that a line of text describes.
pub open spec fn rocks_in_line(line: Seq<char>) -> Seq<Vector2> {
    let c = corners_of(line);
    along(c.map_values(|p: Option<Vector2>| p->0), (c.len() - 1) as nat)
}

/// Adds the places on the straight line from `p` to `q` to `rocks`.
fn push_between(rocks: &mut Vec<Vector2>, p: Vector2, q: Vector2)
    requires
        straight(p, q),
    ensures
        final(rocks)@ == old(rocks)@ + between(p, q),
{
    let ghost line = between(p, q);
    if p.x == q.x {
        let (low, high) = make_range(p.y, q.y);
        let mut y: i64 = low;
        assert(line.take(0) =~= seq![]);
        assert(old(rocks)@ + line.take(0) =~= old(rocks)@);
        while y < high
            invariant
                low <= y <= high,
                p.x == q.x,
                line == between(p, q),
                line.len() == high - low + 1,
                forall|i: int| 0 <= i < line.len() ==> #[trigger] line[i] == (Vector2 { x: p.x, y: (low + i) as i64 }),
                rocks@ == old(rocks)@ + line.take(y - low),
            decreases high - y,
        {
            rocks.push(Vector2::new(p.x, y));
            assert(line.take(y - low + 1) =~= line.take(y - low).push(line[y - low]));
            assert(rocks@ =~= old(rocks)@ + line.take(y - low + 1));
            y += 1;
        }
        rocks.push(Vector2::new(p.x, high));
        assert(line =~= line.take(high - low).push(line[high - low]));
        assert(rocks@ =~= old(rocks)@ + line);
    } else {
        let (low, high) = make_range(p.x, q.x);
        let mut x: i64 = low;
        assert(line.take(0) =~= seq![]);
        assert(old(rocks)@ + line.take(0) =~= old(rocks)@);
        while x < high
            invariant
                low <= x <= high,
                p.x != q.x,
                line == between(p, q),
                line.len() == high - low + 1,
                forall|i: int| 0 <= i < line.len() ==> #[trigger] line[i] == (Vector2 { x: (low + i) as i64, y: p.y }),
                rocks@ == old(rocks)@ + line.take(x - low),
            decreases high - x,
        {
            rocks.push(Vector2::new(x, p.y));
            assert(line.take(x - low + 1) =~= line.take(x - low).push(line[x - low]));
            assert(rocks@ =~= old(rocks)@ + line.take(x - low + 1));
            x += 1;
        }
        rocks.push(Vector2::new(high, p.y));
        assert(line =~= line.take(high - low).push(line[high - low]));
        assert(rocks@ =~= old(rocks)@ + line);
    }
}

/// Reads the corners of the path of rock that a line of text describes,
/// or nothing where the line describes none.
pub fn read_corners(line: &[char]) -> (r: Option<Vec<Vector2>>)
    ensures
        r is Some <==> path_ok(line@),
        r matches Some(points) ==> {
            &&& points@ == corners_of(line@).map_values(|p: Option<Vector2>| p->0)
            &&& points@.len() > 0
            &&& forall|j: int| 0 < j < points@.len() ==> straight(points@[j - 1], #[trigger] points@[j])
        },
{
    let parts = split_by_pair(line, '-', '>');
    let ghost corners = corners_of(line@);
    let mut points: Vec<Vector2> = Vec::new();
    let mut i: usize = 0;
    while i < parts.len()
        invariant
            i <= parts@.len(),
            parts@.len() == corners.len(),
            parts@.len() > 0,
            corners == corners_of(line@),
            forall|j: int| 0 <= j < parts@.len() ==> point_of(trimmed((#[trigger] parts@[j])@)) == corners[j],
            points@.len() == i,
            forall|j: int| 0 <= j < i ==> corners[j] == Some(#[trigger] points@[j]),
            forall|j: int| 0 < j < i ==> straight(points@[j - 1], #[trigger] points@[j]),
        decreases parts@.len() - i,
    {
        let point = match parse_point(trim(parts[i])) {
            Some(p) => p,
            None => {
                reveal(path_ok);
                assert(corners[i as int] is None);
                return None;
            },
        };
        if i > 0 {
            let last = points[i - 1];
            if !((last.x == point.x && last.y != point.y) || (last.y == point.y && last.x != point.x)) {
                reveal(path_ok);
                assert(!straight(corners[i - 1]->0, corners[i as int]->0));
                return None;
            }
        }
        points.push(point);
        i += 1;
    }
    proof {
        reveal(path_ok);
        assert(points@ =~= corners.map_values(|p: Option<Vector2>| p->0));
        assert forall|j: int| 0 <= j < corners.len() implies (#[trigger] corners[j]) is Some by {
            assert(corners[j] == Some(points@[j]));
        }
        assert forall|j: int| 0 < j < corners.len() implies straight(corners[j - 1]->0, (#[trigger] corners[j])->0) by {
            assert(straight(points@[j - 1], points@[j]));
            assert(corners[j - 1] == Some(points@[j - 1]));
            assert(corners[j] == Some(points@[j]));
        }
    }
    Some(points)
}

/// Adds the rocks on the lines that join the points, each to the next,
/// to `rocks`.
fn push_path(rocks: &mut Vec<Vector2>, points: &Vec<Vector2>)
    requires
        points@.len() > 0,
        forall|j: int| 0 < j < points@.len() ==> straight(points@[j - 1], #[trigger] points@[j]),
    ensures
        final(rocks)@ == old(rocks)@ + along(points@, (points@.len() - 1) as nat),
{
    let mut i: usize = 1;
    assert(old(rocks)@ + along(points@, 0) =~= old(rocks)@);
    while i < points.len()
        invariant
            1 <= i <= points@.len(),
            forall|j: int| 0 < j < points@.len() ==> straight(points@[j - 1], #[trigger] points@[j]),
            rocks@ == old(rocks)@ + along(points@, (i - 1) as nat),
        decreases points@.len() - i,
    {
        assert(straight(points@[i - 1], points@[i as int]));
        push_between(rocks, points[i - 1], points[i]);
        assert(rocks@ =~= old(rocks)@ + along(points@, i as nat)) by {
            assert(along(points@, i as nat) == along(points@, (i - 1) as nat) + between(
                points@[i - 1],
                points@[i as int],
            ));
        }
        i += 1;
    }
}

/// Adds the rocks of the path that a line of text describes to `rocks`.
pub fn parse_rocks_in_line(line: &[char], rocks: &mut Vec<Vector2>)
    requires
        path_ok(line@),
    ensures
        final(rocks)@ == old(rocks)@ + rocks_in_line(line@),
{
    match read_corners(line) {
        Some(points) => push_path(rocks, &points),
        None => vstd::pervasive::unreached(),
    }
}

/// Every entry of the text describes a path of rock.
pub open spec fn readable(s: Seq<char>) -> bool {
    forall|i: int| 0 <= i < entries_of(s).len() ==> path_ok(#[trigger] entries_of(s)[i])
}

/// The rocks of the paths of the first `n` lines.
pub open spec fn rocks_in(lines: Seq<Seq<char>>, n: nat) -> Seq<Vector2>
    decreases n,
{
    if n == 0 {
        seq![]
    } else {
        rocks_in(lines, (n - 1) as nat) + rocks_in_line(lines[n - 1])
    }
}

/// The rocks that a text describes.
pub open spec fn rocks_of(s: Seq<char>) -> Seq<Vector2> {
    rocks_in(entries_of(s), entries_of(s).len())
}

/// Reads the rocks that a text describes, or nothing where an entry
/// describes no path of rock.
pub fn read(input: &str) -> (r: Option<Vec<Vector2>>)
    ensures
        r is Some <==> readable(input@),
        r matches Some(rocks) ==> rocks@ == rocks_of(input@),
{
    let chars = to_chars(input);
    let es = entries(chars.as_slice());
    let ghost all = entries_of(input@);
    let mut rocks: Vec<Vector2> = Vec::new();
    let mut i: usize = 0;
    while i < es.len()
        invariant
            i <= es@.len(),
            es@.len() == all.len(),
            all == entries_of(input@),
            forall|j: int| 0 <= j < es@.len() ==> (#[trigger] es@[j])@ == all[j],
            forall|j: int| 0 <= j < i ==> path_ok(#[trigger] all[j]),
            rocks@ == rocks_in(all, i as nat),
        decreases es@.len() - i,
    {
        match read_corners(es[i]) {
            None => {
                assert(!path_ok(all[i as int]));
                return None;
            },
            Some(points) => {
                let ghost line = all[i as int];
                assert(points@.len() == corners_of(line).len());
                assert(points@.len() > 0);
                push_path(&mut rocks, &points);
                assert(rocks_in_line(line) == along(points@, (points@.len() - 1) as nat));
                assert(rocks_in(all, (i + 1) as nat) == rocks_in(all, i as nat) + rocks_in_line(line));
            },
        }
        i += 1;
    }
    Some(rocks)
}

/// Reads the rocks that a text describes.
pub fn parse(input: &str) -> (rocks: Vec<Vector2>)
    requires
        readable(input@),
    ensures
        rocks@ == rocks_of(input@),
{
    match read(input) {
        Some(rocks) => rocks,
        None => vstd::pervasive::unreached(),
    }
}

/// The column in which the sand pours in.
pub const SOURCE: i64 = 500;

/// The cave of a text, with the source of the sand at depth zero.
pub open spec fn cave_in(s: Seq<char>, mode: Mode) -> Cave {
    cave_of(rocks_of(s), Vector2 { x: SOURCE, y: 0 }, mode)
}

/// The text describes rocks, and the cave that they form fits, with a
/// floor and without.
pub open spec fn cave_ok(s: Seq<char>) -> bool {
    readable(s) && cave_in(s, Mode::Floor).fits()
}

/// Number of units of sand that come to rest before one falls past the
/// lowest rock.
pub fn star_one(input: &str) -> (r: usize)
    requires
        cave_ok(input@),
        cave_in(input@, Mode::Abyss).halts(cave_in(input@, Mode::Abyss).room()),
    ensures
        r == cave_in(input@, Mode::Abyss).filled(cave_in(input@, Mode::Abyss).room()).sand,
{
    let rocks = parse(input);
    let mut map = CaveMap::new(rocks, Vector2::new(SOURCE, 0), Mode::Abyss);
    map.fill();
    map.sand_at_rest()
}

/// Number of units of sand that come to rest on the floor before one
/// rests where the sand pours in.
pub fn star_two(input: &str) -> (r: usize)
    requires
        cave_ok(input@),
        cave_in(input@, Mode::Floor).halts(cave_in(input@, Mode::Floor).room()),
    ensures
        r == cave_in(input@, Mode::Floor).filled(cave_in(input@, Mode::Floor).room()).sand,
{
    let rocks = parse(input);
    let mut map = CaveMap::new(rocks, Vector2::new(SOURCE, 0), Mode::Floor);
    map.fill();
    map.sand_at_rest()
}

} // verus!
