use advent::day12::frontier::{Frontier, HeapEntry};
use advent::day12::grid::{GridError, HeightMap};
use advent::day12::parse::ParseError;
use advent::day12::path::reconstruct_path;
use advent::day12::{nearest, solve_one, solve_two, Outcome};
use std::collections::VecDeque;

const SAMPLE: &str = "Sabqponm\nabcryxxl\naccszExk\nacctuvwj\nabdefghi";

fn grid(rows: &[&str], start: (usize, usize), end: (usize, usize)) -> HeightMap {
    let map = rows
        .iter()
        .map(|row| row.bytes().map(|b| b - b'a').collect())
        .collect();
    HeightMap::new(map, start, end).expect("a well-formed grid")
}

fn can_move(map: &HeightMap, from: (usize, usize), to: (usize, usize)) -> bool {
    let dx = from.0.abs_diff(to.0);
    let dy = from.1.abs_diff(to.1);
    dx + dy == 1 && map.elevation(to) <= map.elevation(from) + 1
}

/// Breadth-first search along the moves, from `from`, by brute force.
fn forward_steps(map: &HeightMap, from: (usize, usize), to: (usize, usize)) -> Option<usize> {
    let (w, h) = (map.width(), map.height());
    let mut dist = vec![vec![usize::MAX; w]; h];
    let mut queue = VecDeque::new();
    dist[from.1][from.0] = 0;
    queue.push_back(from);
    while let Some(c) = queue.pop_front() {
        if c == to {
            return Some(dist[c.1][c.0]);
        }
        let mut around = Vec::new();
        if c.0 > 0 {
            around.push((c.0 - 1, c.1));
        }
        if c.1 > 0 {
            around.push((c.0, c.1 - 1));
        }
        if c.0 + 1 < w {
            around.push((c.0 + 1, c.1));
        }
        if c.1 + 1 < h {
            around.push((c.0, c.1 + 1));
        }
        for n in around {
            if can_move(map, c, n) && dist[n.1][n.0] == usize::MAX {
                dist[n.1][n.0] = dist[c.1][c.0] + 1;
                queue.push_back(n);
            }
        }
    }
    None
}

fn nearest_lowest_by_scan(map: &HeightMap) -> Option<usize> {
    let mut best = None;
    for y in 0..map.height() {
        for x in 0..map.width() {
            if map.elevation((x, y)) == 0 {
                if let Some(steps) = forward_steps(map, (x, y), map.end) {
                    best = Some(best.map_or(steps, |b: usize| b.min(steps)));
                }
            }
        }
    }
    best
}

fn hand_built() -> Vec<HeightMap> {
    vec![
        HeightMap::parse(SAMPLE).expect("the sample parses"),
        grid(&["abcdefghijklmnopqrstuvwxyz"], (0, 0), (25, 0)),
        grid(&["aaa", "aza", "aaa"], (0, 0), (2, 2)),
        grid(&["abc", "hgd", "ife"], (0, 0), (0, 2)),
        grid(&["azzz", "abcd", "zzze", "ihgf"], (0, 0), (0, 3)),
        grid(&["cba", "dab", "edc"], (2, 0), (1, 1)),
        grid(&["a"], (0, 0), (0, 0)),
        grid(&["aaaa", "azza", "aaaa"], (3, 2), (0, 0)),
    ]
}

#[test]
fn step_count_is_the_minimum_found_by_forward_search() {
    for map in hand_built() {
        assert_eq!(map.fewest_steps(), forward_steps(&map, map.start, map.end));
    }
}

#[test]
fn every_step_of_a_reconstructed_path_is_a_legal_move() {
    for map in hand_built() {
        for y in 0..map.height() {
            for x in 0..map.width() {
                if let Some(path) = map.shortest_path((x, y), map.end) {
                    assert_eq!(path[0], map.end);
                    assert_eq!(path[path.len() - 1], (x, y));
                    for pair in path.windows(2) {
                        assert!(can_move(&map, pair[1], pair[0]));
                    }
                    assert_eq!(Some(path.len() - 1), forward_steps(&map, (x, y), map.end));
                } else {
                    assert_eq!(forward_steps(&map, (x, y), map.end), None);
                }
            }
        }
    }
}

#[test]
fn nearest_of_many_is_the_minimum_over_all_lowest_cells() {
    for map in hand_built() {
        let nearest = map.fewest_steps_from_lowest();
        assert_eq!(nearest, nearest_lowest_by_scan(&map));
        if map.elevation(map.start) == 0 {
            if let Some(direct) = map.fewest_steps() {
                assert!(nearest.expect("the start is a candidate") <= direct);
            }
        }
    }
}

#[test]
fn lowest_cells_are_listed_column_by_column_with_their_path_lengths() {
    let map = grid(&["abz", "zcz", "aaz", "bcd"], (0, 0), (2, 3));
    // column 0 first: from (0, 0) the way leads round over (1, 1); (1, 2) has to go back over (0, 2)
    assert_eq!(map.lowest_paths(), vec![((0, 0), 8), ((0, 2), 4), ((1, 2), 5)]);
    assert_eq!(nearest(&map.lowest_paths()), Some(((0, 2), 4)));
    assert_eq!(map.fewest_steps_from_lowest(), Some(3));
    for map in hand_built() {
        let found = map.lowest_paths();
        let mut expected = Vec::new();
        for x in 0..map.width() {
            for y in 0..map.height() {
                if map.elevation((x, y)) == 0 {
                    if let Some(steps) = forward_steps(&map, (x, y), map.end) {
                        expected.push(((x, y), steps + 1));
                    }
                }
            }
        }
        assert_eq!(found, expected);
        assert_eq!(nearest(&found).map(|(_, len)| len - 1), map.fewest_steps_from_lowest());
    }
    // of equal lengths the first counts
    assert_eq!(nearest(&vec![((3, 3), 7), ((0, 1), 4), ((2, 2), 4)]), Some(((0, 1), 4)));
    assert_eq!(nearest(&vec![]), None);
}

#[test]
fn sample_grid_takes_31_and_29_steps() {
    assert_eq!(solve_one(SAMPLE), Outcome::Steps(31));
    assert_eq!(solve_two(SAMPLE), Outcome::Steps(29));
}

#[test]
fn a_wall_of_the_highest_cells_gives_no_path() {
    let walled = "Saz\nazE\naaz";
    assert_eq!(solve_one(walled), Outcome::NoPath);
    assert_eq!(solve_two(walled), Outcome::NoPath);
    let map = grid(&["aza", "aza", "aza"], (0, 0), (2, 2));
    assert_eq!(map.fewest_steps(), None);
    assert_eq!(map.shortest_path((0, 0), (2, 2)), None);
    // the cells beyond the wall are candidates that are connected
    assert_eq!(map.fewest_steps_from_lowest(), Some(0));
}

#[test]
fn one_connected_candidate_is_enough_for_the_nearest_of_many() {
    // the start cannot climb onto its neighbour, the lowest cell behind can
    let text = "SczabcdefghijklmnopqrstuvwxyE";
    assert_eq!(solve_one(text), Outcome::NoPath);
    assert_eq!(solve_two(text), Outcome::Steps(25));
}

#[test]
fn searching_twice_gives_the_same_predecessors() {
    for map in hand_built() {
        let first = map.djikstra(map.end);
        let second = map.djikstra(map.end);
        for y in 0..map.height() {
            for x in 0..map.width() {
                assert_eq!(first.get((x, y)), second.get((x, y)));
            }
        }
    }
}

#[test]
fn the_anchor_has_no_predecessor_and_cells_outside_have_none() {
    let map = HeightMap::parse(SAMPLE).expect("the sample parses");
    let came_from = map.djikstra(map.end);
    assert_eq!(came_from.get(map.end), None);
    assert_eq!(came_from.get((8, 0)), None);
    assert_eq!(came_from.get((0, 5)), None);
    assert_eq!(came_from.get((4, 2)), Some((5, 2)));
}

#[test]
fn among_equal_routes_the_greater_coordinate_is_linked() {
    // from (0, 0) both (1, 0) and (0, 1) are one move from the end at (1, 1)
    let map = grid(&["aa", "aa"], (0, 0), (1, 1));
    let came_from = map.djikstra((1, 1));
    assert_eq!(came_from.get((0, 0)), Some((1, 0)));
    assert_eq!(came_from.get((1, 0)), Some((1, 1)));
    assert_eq!(came_from.get((0, 1)), Some((1, 1)));
    assert_eq!(reconstruct_path(&came_from, (1, 1), (0, 0)), Some(vec![(1, 1), (1, 0), (0, 0)]));
}

#[test]
fn start_on_the_end_is_a_path_of_no_step() {
    let map = grid(&["abc"], (1, 0), (1, 0));
    assert_eq!(map.fewest_steps(), Some(0));
    assert_eq!(map.shortest_path((1, 0), (1, 0)), Some(vec![(1, 0)]));
    let single = grid(&["a"], (0, 0), (0, 0));
    assert_eq!(single.fewest_steps(), Some(0));
    assert_eq!(single.fewest_steps_from_lowest(), Some(0));
}

#[test]
fn reconstruction_stops_at_the_anchor_it_is_given() {
    let map = grid(&["abcd"], (0, 0), (3, 0));
    let came_from = map.djikstra((3, 0));
    assert_eq!(reconstruct_path(&came_from, (2, 0), (0, 0)), Some(vec![(2, 0), (1, 0), (0, 0)]));
    // the walk from (3, 0) ends there without meeting (0, 0)
    assert_eq!(reconstruct_path(&came_from, (0, 0), (3, 0)), None);
    assert_eq!(reconstruct_path(&came_from, (0, 0), (9, 9)), None);
}

#[test]
fn descents_of_any_depth_are_legal_but_climbs_of_two_are_not() {
    let map = grid(&["aczca"], (0, 0), (4, 0));
    assert_eq!(map.valid_neighbors_backwards((2, 0)), vec![]);
    assert_eq!(map.valid_neighbors_backwards((1, 0)), vec![(2, 0)]);
    assert_eq!(map.valid_neighbors_backwards((0, 0)), vec![(1, 0)]);
    let flat = grid(&["bbb", "bab", "bcb"], (0, 0), (1, 1));
    assert_eq!(flat.valid_neighbors_backwards((1, 1)), vec![(0, 1), (1, 0), (2, 1), (1, 2)]);
    assert_eq!(flat.valid_neighbors_backwards((1, 2)), vec![(0, 2), (2, 2)]);
    assert_eq!(flat.valid_neighbors_backwards((0, 0)), vec![(1, 0), (0, 1)]);
}

#[test]
fn dimensions_and_elevations_are_those_of_the_rows() {
    let map = HeightMap::parse(SAMPLE).expect("the sample parses");
    assert_eq!(map.width(), 8);
    assert_eq!(map.height(), 5);
    assert_eq!(map.start, (0, 0));
    assert_eq!(map.end, (5, 2));
    assert_eq!(map.elevation((0, 0)), 0);
    assert_eq!(map.elevation((5, 2)), 25);
    assert_eq!(map.elevation((3, 1)), 17);
}

#[test]
fn frontier_hands_out_by_distance_then_by_descending_coordinate() {
    let mut open = Frontier::new();
    assert!(open.is_empty());
    for (location, value) in [((1, 1), 3), ((0, 0), 1), ((2, 0), 3), ((1, 2), 3), ((5, 5), 2), ((0, 0), 1)] {
        open.push(HeapEntry::new(location, value));
    }
    assert_eq!(open.len(), 6);
    let mut order = Vec::new();
    while let Some(entry) = open.pop() {
        order.push((entry.value, entry.location));
    }
    assert_eq!(order, vec![(1, (0, 0)), (1, (0, 0)), (2, (5, 5)), (3, (2, 0)), (3, (1, 2)), (3, (1, 1))]);
    assert_eq!(open.pop(), None);
}

#[test]
fn grids_that_are_no_grids_are_refused() {
    let refused = |map: Vec<Vec<u8>>, start, end| HeightMap::new(map, start, end).map(|_| ()).unwrap_err();
    assert_eq!(refused(vec![], (0, 0), (0, 0)), GridError::Empty);
    assert_eq!(refused(vec![vec![]], (0, 0), (0, 0)), GridError::Empty);
    assert_eq!(refused(vec![vec![0, 1], vec![2]], (0, 0), (0, 0)), GridError::Ragged);
    assert_eq!(refused(vec![vec![0, 26]], (0, 0), (0, 0)), GridError::Elevation);
    assert_eq!(refused(vec![vec![0, 25]], (2, 0), (0, 0)), GridError::StartOutside);
    assert_eq!(refused(vec![vec![0, 25]], (0, 0), (0, 1)), GridError::EndOutside);
    assert!(HeightMap::new(vec![vec![0, 25]], (0, 0), (1, 0)).is_ok());
}

#[test]
fn texts_that_are_no_maps_are_refused() {
    let refused = |text: &str| HeightMap::parse(text).map(|_| ()).unwrap_err();
    assert_eq!(refused(""), ParseError::NoStart);
    assert_eq!(refused("abcE"), ParseError::NoStart);
    assert_eq!(refused("Sabc"), ParseError::NoEnd);
    assert_eq!(refused("SaE\nab?"), ParseError::UnexpectedCharacter { character: '?', line: 1 });
    // what stops the reading is reported after the marks that were not read
    assert_eq!(refused("a?SE"), ParseError::NoStart);
    assert_eq!(refused("S?E"), ParseError::NoEnd);
    assert_eq!(refused("SaE\nab"), ParseError::Shape(GridError::Ragged));
    assert_eq!(solve_one("abc"), Outcome::Invalid(ParseError::NoStart));
    assert_eq!(solve_two("Sa\nb"), Outcome::Invalid(ParseError::NoEnd));
}

#[test]
fn white_space_around_the_map_and_its_rows_is_ignored() {
    let map = HeightMap::parse("\n\n  SbcE  \r\n\tabcd\n\n").expect("a map");
    assert_eq!((map.width(), map.height()), (4, 2));
    assert_eq!(map.fewest_steps(), None);
    let climb = HeightMap::parse(" Sbcdefghijklmnopqrstuvwxy\n\tabcdefghijklmnopqrstuvwxE ").expect("a map");
    assert_eq!(climb.fewest_steps(), Some(25));
    // of two marks the last counts
    let twice = HeightMap::parse("SabS\nEzzE").expect("a map");
    assert_eq!(twice.start, (3, 0));
    assert_eq!(twice.end, (3, 1));
}
