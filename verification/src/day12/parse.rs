use crate::day12::grid::{grid_fault, elevations_in_range, rectangular, rows_view, GridError, HeightMap, Terrain, MAX_ELEVATION};
use crate::text::{lines, lines_of, to_chars, trim, trimmed};
use vstd::prelude::*;

verus! {

/// Why a text is not a height map.
#[derive(Debug, Clone, Copy, PartialEq, Eq)]
pub enum ParseError {
    /// No `S` was read.
    NoStart,
    /// No `E` was read.
    NoEnd,
    /// A character that stands for no elevation, and the index of its line.
    UnexpectedCharacter { character: char, line: usize },
    /// The lines do not form a grid.
    Shape(GridError),
}

/// The elevation a character stands for: `a` to `z` are 0 to 25, `S` is the
/// lowest and `E` the highest.
pub open spec fn elevation_of(c: char) -> Option<u8> {
    if 'a' <= c <= 'z' {
        Some((c as u32 - 97) as u8)
    } else if c == 'S' {
        Some(0)
    } else if c == 'E' {
        Some(MAX_ELEVATION)
    } else {
        None
    }
}

/// Decides [`elevation_of`].
pub fn read_cell(c: char) -> (r: Option<u8>)
    ensures
        r == elevation_of(c),
        r matches Some(v) ==> v <= MAX_ELEVATION,
{
    if 'a' <= c && c <= 'z' {
        Some((c as u32 - 97) as u8)
    } else if c == 'S' {
        Some(0)
    } else if c == 'E' {
        Some(MAX_ELEVATION)
    } else {
        None
    }
}

/// Number of characters at the start of `row` that stand for an elevation.
pub open spec fn clean_prefix(row: Seq<char>) -> nat
    decreases row.len(),
{
    if row.len() == 0 || elevation_of(row[0]) is None {
        0
    } else {
        1 + clean_prefix(row.drop_first())
    }
}

/// The clean prefix ends at the first character that stands for nothing.
pub proof fn lemma_clean_prefix_is(row: Seq<char>, k: int)
    requires
        0 <= k <= row.len(),
        k < row.len() ==> elevation_of(row[k]) is None,
        forall|i: int| 0 <= i < k ==> elevation_of(#[trigger] row[i]) is Some,
    ensures
        clean_prefix(row) == k,
    decreases row.len(),
{
    if k > 0 {
        let t = row.drop_first();
        assert(elevation_of(row[0]) is Some);
        assert forall|i: int| 0 <= i < k - 1 implies elevation_of(#[trigger] t[i]) is Some by {
            assert(t[i] == row[i + 1]);
        }
        lemma_clean_prefix_is(t, k - 1);
    }
}

/// Number of rows at the start of `rows` that are clean throughout.
pub open spec fn clean_rows(rows: Seq<Seq<char>>) -> nat
    decreases rows.len(),
{
    if rows.len() == 0 || clean_prefix(rows[0]) < rows[0].len() {
        0
    } else {
        1 + clean_rows(rows.drop_first())
    }
}

/// The clean rows end at the first row with a character that stands for
/// nothing.
pub proof fn lemma_clean_rows_is(rows: Seq<Seq<char>>, k: int)
    requires
        0 <= k <= rows.len(),
        k < rows.len() ==> clean_prefix(rows[k]) < rows[k].len(),
        forall|i: int| 0 <= i < k ==> clean_prefix(#[trigger] rows[i]) == rows[i].len(),
    ensures
        clean_rows(rows) == k,
    decreases rows.len(),
{
    if k > 0 {
        let t = rows.drop_first();
        assert(clean_prefix(rows[0]) == rows[0].len());
        assert forall|i: int| 0 <= i < k - 1 implies clean_prefix(#[trigger] t[i]) == t[i].len() by {
            assert(t[i] == rows[i + 1]);
        }
        lemma_clean_rows_is(t, k - 1);
    }
}

/// What of `rows` is read: everything before the first character that
/// stands for nothing.
pub open spec fn scanned(rows: Seq<Seq<char>>) -> Seq<Seq<char>> {
    let b = clean_rows(rows) as int;
    if b >= rows.len() {
        rows
    } else {
        rows.take(b).push(rows[b].take(clean_prefix(rows[b]) as int))
    }
}

/// Index of the last `c` in `row`.
pub open spec fn last_index(row: Seq<char>, c: char) -> Option<int>
    decreases row.len(),
{
    if row.len() == 0 {
        None
    } else if row.last() == c {
        Some(row.len() - 1)
    } else {
        last_index(row.drop_last(), c)
    }
}

/// The cell of the last `c` in `row`, which is row number `y`; `prior`
/// where the row has none.
pub open spec fn mark_in(row: Seq<char>, c: char, y: usize, prior: Option<(usize, usize)>) -> Option<
    (usize, usize),
> {
    match last_index(row, c) {
        Some(x) => Some((x as usize, y)),
        None => prior,
    }
}

/// The cell of the last `c` in `part`, read row by row.
pub open spec fn find_last(part: Seq<Seq<char>>, c: char) -> Option<(usize, usize)>
    decreases part.len(),
{
    if part.len() == 0 {
        None
    } else {
        mark_in(part.last(), c, (part.len() - 1) as usize, find_last(part.drop_last(), c))
    }
}

/// The rows of a map text: the lines of the trimmed text, each trimmed.
pub open spec fn rows_of(s: Seq<char>) -> Seq<Seq<char>> {
    lines_of(trimmed(s)).map_values(|l: Seq<char>| trimmed(l))
}

/// What keeps rows of characters from being a grid.
pub open spec fn shape_fault(rows: Seq<Seq<char>>) -> Option<GridError> {
    if rows.len() == 0 || rows[0].len() == 0 {
        Some(GridError::Empty)
    } else if exists|y: int| 0 <= y < rows.len() && (#[trigger] rows[y]).len() != rows[0].len() {
        Some(GridError::Ragged)
    } else if rows[0].len() * rows.len() >= usize::MAX {
        Some(GridError::TooLarge)
    } else {
        None
    }
}

/// What is wrong with a map text, if anything: the marks are looked for
/// first, in what was read; then comes the character that stopped the
/// reading, then the shape.
pub open spec fn parse_error(s: Seq<char>) -> Option<ParseError> {
    let rows = rows_of(s);
    let b = clean_rows(rows) as int;
    if find_last(scanned(rows), 'S') is None {
        Some(ParseError::NoStart)
    } else if find_last(scanned(rows), 'E') is None {
        Some(ParseError::NoEnd)
    } else if b < rows.len() {
        Some(
            ParseError::UnexpectedCharacter {
                character: rows[b][clean_prefix(rows[b]) as int],
                line: b as usize,
            },
        )
    } else {
        match shape_fault(rows) {
            Some(e) => Some(ParseError::Shape(e)),
            None => None,
        }
    }
}

/// `map` holds the elevations that the characters of `rows` stand for.
pub open spec fn elevations_match(map: Seq<Seq<u8>>, rows: Seq<Seq<char>>) -> bool {
    &&& map.len() == rows.len()
    &&& forall|y: int| 0 <= y < map.len() ==> (#[trigger] map[y]).len() == rows[y].len()
    &&& forall|y: int, x: int|
        0 <= y < map.len() && 0 <= x < rows[y].len() ==> Some(#[trigger] map[y][x]) == elevation_of(
            rows[y][x],
        )
}

/// The elevations that the characters of a clean row stand for.
pub open spec fn elevations_of(row: Seq<char>) -> Seq<u8> {
    row.map_values(|c: char| elevation_of(c).unwrap_or(0))
}

/// The height map that a text without fault describes.
pub open spec fn terrain_of(s: Seq<char>) -> Terrain {
    Terrain {
        rows: rows_of(s).map_values(|row: Seq<char>| elevations_of(row)),
        start: find_last(rows_of(s), 'S').unwrap_or((0, 0)),
        end: find_last(rows_of(s), 'E').unwrap_or((0, 0)),
    }
}

/// Reads one row. Stops at the first character that stands for no
/// elevation and returns it; otherwise returns the elevations. `start` and
/// `end` move to the last `S` and `E` that were read.
fn scan_row(line: &[char], y: usize, start: &mut Option<(usize, usize)>, end: &mut Option<(usize, usize)>) -> (r:
    Result<Vec<u8>, char>)
    ensures
        *final(start) == mark_in(line@.take(clean_prefix(line@) as int), 'S', y, *old(start)),
        *final(end) == mark_in(line@.take(clean_prefix(line@) as int), 'E', y, *old(end)),
        match r {
            Ok(row) => {
                &&& clean_prefix(line@) == line@.len()
                &&& row@.len() == line@.len()
                &&& forall|i: int| 0 <= i < row@.len() ==> Some(#[trigger] row@[i]) == elevation_of(line@[i])
            },
            Err(c) => clean_prefix(line@) < line@.len() && c == line@[clean_prefix(line@) as int],
        },
{
    let mut row: Vec<u8> = Vec::new();
    let mut x: usize = 0;
    assert(line@.take(0).len() == 0);
    while x < line.len()
        invariant
            x <= line@.len(),
            row@.len() == x,
            forall|i: int| 0 <= i < x ==> Some(#[trigger] row@[i]) == elevation_of(line@[i]),
            forall|i: int| 0 <= i < x ==> elevation_of(#[trigger] line@[i]) is Some,
            *start == mark_in(line@.take(x as int), 'S', y, *old(start)),
            *end == mark_in(line@.take(x as int), 'E', y, *old(end)),
        decreases line@.len() - x,
    {
        let c = line[x];
        match read_cell(c) {
            None => {
                proof {
                    lemma_clean_prefix_is(line@, x as int);
                }
                return Err(c);
            },
            Some(v) => {
                assert(line@.take(x + 1).drop_last() == line@.take(x as int));
                assert(line@.take(x + 1).last() == c);
                if c == 'S' {
                    *start = Some((x, y));
                } else if c == 'E' {
                    *end = Some((x, y));
                }
                row.push(v);
            },
        }
        x += 1;
    }
    proof {
        lemma_clean_prefix_is(line@, x as int);
        assert(line@.take(x as int) == line@);
    }
    Ok(row)
}

impl HeightMap {
    /// Reads a height map from its text: one line for each row, `a` to `z`
    /// for the elevations, `S` for the start and `E` for the end.
    pub fn parse(input: &str) -> (r: Result<HeightMap, ParseError>)
        ensures
            match r {
                Ok(m) => parse_error(input@) is None && m@.wf() && m@ == terrain_of(input@),
                Err(e) => parse_error(input@) == Some(e),
            },
    {
        let chars = to_chars(input);
        let body = trim(chars.as_slice());
        let ls = lines(body);
        let ghost rows = rows_of(input@);
        assert(rows.len() == ls@.len());
        let mut map: Vec<Vec<u8>> = Vec::new();
        let mut start: Option<(usize, usize)> = None;
        let mut end: Option<(usize, usize)> = None;
        let mut y: usize = 0;
        assert(rows.take(0).len() == 0);
        while y < ls.len()
            invariant
                y <= ls@.len(),
                rows == rows_of(input@),
                rows.len() == ls@.len(),
                forall|i: int| 0 <= i < ls@.len() ==> trimmed((#[trigger] ls@[i])@) == rows[i],
                forall|i: int| 0 <= i < y ==> clean_prefix(#[trigger] rows[i]) == rows[i].len(),
                elevations_match(rows_view(map@), rows.take(y as int)),
                start == find_last(rows.take(y as int), 'S'),
                end == find_last(rows.take(y as int), 'E'),
            decreases ls@.len() - y,
        {
            let line = trim(ls[y]);
            assert(line@ == rows[y as int]);
            let ghost part = rows.take(y as int).push(line@.take(clean_prefix(line@) as int));
            proof {
                assert(part.drop_last() == rows.take(y as int));
                assert(part.last() == line@.take(clean_prefix(line@) as int));
            }
            match scan_row(line, y, &mut start, &mut end) {
                Err(c) => {
                    proof {
                        lemma_clean_rows_is(rows, y as int);
                        assert(scanned(rows) == part);
                    }
                    if start.is_none() {
                        return Err(ParseError::NoStart);
                    }
                    if end.is_none() {
                        return Err(ParseError::NoEnd);
                    }
                    return Err(ParseError::UnexpectedCharacter { character: c, line: y });
                },
                Ok(row) => {
                    proof {
                        assert(line@.take(clean_prefix(line@) as int) == line@);
                        assert(part == rows.take(y + 1));
                        let next = rows.take(y + 1);
                        let grown = rows_view(map@.push(row));
                        assert forall|j: int| 0 <= j < y + 1 implies (#[trigger] grown[j]).len()
                            == next[j].len() by {
                            if j < y {
                                assert(rows_view(map@)[j].len() == rows.take(y as int)[j].len());
                            }
                        }
                        assert forall|j: int, i: int|
                            0 <= j < y + 1 && 0 <= i < next[j].len() implies Some(
                            #[trigger] grown[j][i],
                        ) == elevation_of(next[j][i]) by {
                            if j < y {
                                assert(Some(rows_view(map@)[j][i]) == elevation_of(
                                    rows.take(y as int)[j][i],
                                ));
                            }
                        }
                    }
                    map.push(row);
                },
            }
            y += 1;
        }
        proof {
            assert(rows.take(y as int) == rows);
            lemma_clean_rows_is(rows, y as int);
            assert(scanned(rows) == rows);
        }
        let start = match start {
            None => {
                return Err(ParseError::NoStart);
            },
            Some(c) => c,
        };
        let end = match end {
            None => {
                return Err(ParseError::NoEnd);
            },
            Some(c) => c,
        };
        proof {
            assert forall|y: int| 0 <= y < rows.len() implies (#[trigger] rows[y]).len() <= usize::MAX by {
                assert(map@[y].len() == rows_view(map@)[y].len());
            }
            lemma_shape(rows_view(map@), rows, start, end);
        }
        match HeightMap::new(map, start, end) {
            Ok(m) => {
                proof {
                    let t = terrain_of(input@);
                    assert forall|y: int| 0 <= y < rows.len() implies #[trigger] m@.rows[y] == t.rows[y] by {
                        assert(m@.rows[y].len() == rows[y].len());
                        assert forall|x: int| 0 <= x < rows[y].len() implies m@.rows[y][x]
                            == t.rows[y][x] by {
                            assert(Some(m@.rows[y][x]) == elevation_of(rows[y][x]));
                        }
                        assert(m@.rows[y] =~= t.rows[y]);
                    }
                    assert(m@.rows =~= t.rows);
                }
                Ok(m)
            },
            Err(e) => Err(ParseError::Shape(e)),
        }
    }
}

/// The last index of a character is an index of the row.
pub proof fn lemma_last_index(row: Seq<char>, c: char)
    ensures
        last_index(row, c) matches Some(x) ==> 0 <= x < row.len(),
    decreases row.len(),
{
    if row.len() > 0 && row.last() != c {
        lemma_last_index(row.drop_last(), c);
    }
}

/// A mark that was found lies in a row of the part, within that row.
pub proof fn lemma_find_last(part: Seq<Seq<char>>, c: char)
    requires
        part.len() <= usize::MAX,
        forall|y: int| 0 <= y < part.len() ==> (#[trigger] part[y]).len() <= usize::MAX,
    ensures
        find_last(part, c) matches Some(m) ==> m.1 < part.len() && m.0 < part[m.1 as int].len(),
    decreases part.len(),
{
    if part.len() > 0 {
        lemma_last_index(part.last(), c);
        let rest = part.drop_last();
        assert forall|y: int| 0 <= y < rest.len() implies (#[trigger] rest[y]).len() <= usize::MAX by {
            assert(rest[y] == part[y]);
        }
        lemma_find_last(rest, c);
        if last_index(part.last(), c) is None {
            if let Some(m) = find_last(rest, c) {
                assert(rest[m.1 as int] == part[m.1 as int]);
            }
        }
    }
}

/// Elevations read from clean rows are a grid exactly when the rows have
/// the shape of one.
pub proof fn lemma_shape(map: Seq<Seq<u8>>, rows: Seq<Seq<char>>, start: (usize, usize), end: (usize, usize))
    requires
        elevations_match(map, rows),
        rows.len() <= usize::MAX,
        forall|y: int| 0 <= y < rows.len() ==> (#[trigger] rows[y]).len() <= usize::MAX,
        Some(start) == find_last(rows, 'S'),
        Some(end) == find_last(rows, 'E'),
    ensures
        grid_fault(map, start, end) == shape_fault(rows),
{
    lemma_find_last(rows, 'S');
    lemma_find_last(rows, 'E');
    if rows.len() > 0 && rows[0].len() > 0 {
        assert(map[0].len() == rows[0].len());
        if exists|y: int| 0 <= y < rows.len() && (#[trigger] rows[y]).len() != rows[0].len() {
            let y = choose|y: int| 0 <= y < rows.len() && (#[trigger] rows[y]).len() != rows[0].len();
            assert(map[y].len() != map[0].len());
        } else {
            assert forall|y: int| 0 <= y < map.len() implies (#[trigger] map[y]).len() == map[0].len() by {
                assert(rows[y].len() == rows[0].len());
            }
            assert(rectangular(map));
            assert forall|y: int, x: int| 0 <= y < map.len() && 0 <= x < map[y].len() implies (
            #[trigger] map[y][x]) <= MAX_ELEVATION by {
                assert(Some(map[y][x]) == elevation_of(rows[y][x]));
            }
            assert(elevations_in_range(map));
            assert(rows[start.1 as int].len() == rows[0].len());
            assert(rows[end.1 as int].len() == rows[0].len());
        }
    } else if rows.len() > 0 {
        assert(map[0].len() == rows[0].len());
    }
}

} // verus!
