use parallel_bfs::{find_path, Coordinate, Grid, InvalidInput};
use std::collections::VecDeque;

fn at(row: usize, col: usize) -> Coordinate {
    Coordinate { row, col }
}

fn grid_of(lines: &[&str]) -> Grid {
    let maze: Vec<Vec<char>> = lines.iter().map(|l| l.chars().collect()).collect();
    Grid::from_chars(&maze).unwrap()
}

fn serpentine() -> Grid {
    grid_of(&[".#.....", ".#.###.", ".#...#.", ".###.#.", ".....#.", "####.#.", ".....#."])
}

/// The distance from `start` to every cell, by a plain breadth-first search.
fn distances(open: &Vec<Vec<bool>>, start: (usize, usize)) -> Vec<Vec<Option<usize>>> {
    let rows = open.len();
    let cols = if rows == 0 { 0 } else { open[0].len() };
    let mut dist = vec![vec![None; cols]; rows];
    let mut queue = VecDeque::new();
    dist[start.0][start.1] = Some(0);
    queue.push_back(start);
    while let Some((r, c)) = queue.pop_front() {
        let d = dist[r][c].unwrap();
        let mut next = Vec::new();
        if r + 1 < rows {
            next.push((r + 1, c));
        }
        if c + 1 < cols {
            next.push((r, c + 1));
        }
        if r > 0 {
            next.push((r - 1, c));
        }
        if c > 0 {
            next.push((r, c - 1));
        }
        for (nr, nc) in next {
            if open[nr][nc] && dist[nr][nc].is_none() {
                dist[nr][nc] = Some(d + 1);
                queue.push_back((nr, nc));
            }
        }
    }
    dist
}

fn assert_is_walk(open: &Vec<Vec<bool>>, path: &Vec<Coordinate>, start: Coordinate, goal: Coordinate) {
    assert!(!path.is_empty());
    assert_eq!(path[0], start);
    assert_eq!(path[path.len() - 1], goal);
    for c in path.iter() {
        assert!(open[c.row][c.col]);
    }
    for i in 1..path.len() {
        let (a, b) = (path[i - 1], path[i]);
        let dr = if a.row > b.row { a.row - b.row } else { b.row - a.row };
        let dc = if a.col > b.col { a.col - b.col } else { b.col - a.col };
        assert_eq!(dr + dc, 1);
    }
    for i in 0..path.len() {
        for j in (i + 1)..path.len() {
            assert_ne!(path[i], path[j]);
        }
    }
}

fn scrambled(rows: usize, cols: usize, seed: u64) -> Vec<Vec<bool>> {
    let mut x = seed;
    let mut open = vec![vec![false; cols]; rows];
    for r in 0..rows {
        for c in 0..cols {
            x = x.wrapping_mul(6364136223846793005).wrapping_add(1442695040888963407);
            open[r][c] = (x >> 33) % 10 < 7;
        }
    }
    open
}

#[test]
fn serpentine_corridor_is_walked_to_its_end() {
    let g = serpentine();
    let path = find_path(&g, at(0, 0), at(6, 6), 6).unwrap().unwrap();
    assert_eq!(path.len(), 25);
    assert_eq!(
        path,
        vec![
            at(0, 0), at(1, 0), at(2, 0), at(3, 0), at(4, 0), at(4, 1), at(4, 2), at(4, 3),
            at(4, 4), at(3, 4), at(2, 4), at(2, 3), at(2, 2), at(1, 2), at(0, 2), at(0, 3),
            at(0, 4), at(0, 5), at(0, 6), at(1, 6), at(2, 6), at(3, 6), at(4, 6), at(5, 6),
            at(6, 6),
        ]
    );
}

#[test]
fn sealed_off_goal_yields_no_path() {
    let g = grid_of(&["....", ".###", ".#.#", ".###"]);
    assert_eq!(find_path(&g, at(0, 0), at(2, 2), 6), Ok(None));
    assert_eq!(find_path(&g, at(2, 2), at(0, 0), 6), Ok(None));
}

#[test]
fn unreachable_goal_yields_no_path_for_every_worker_count() {
    let g = grid_of(&["..#..", "..#..", "..#.."]);
    for workers in [1usize, 2, 6, 32] {
        assert_eq!(find_path(&g, at(0, 0), at(2, 4), workers), Ok(None));
    }
}

#[test]
fn start_equal_to_goal_yields_the_single_cell() {
    let g = serpentine();
    for workers in [0usize, 1, 2, 6, 32] {
        assert_eq!(find_path(&g, at(4, 2), at(4, 2), workers), Ok(Some(vec![at(4, 2)])));
    }
}

#[test]
fn invalid_start_is_rejected() {
    let g = serpentine();
    assert_eq!(find_path(&g, at(0, 1), at(6, 6), 4), Err(InvalidInput::Start));
    assert_eq!(find_path(&g, at(7, 0), at(6, 6), 4), Err(InvalidInput::Start));
    assert_eq!(find_path(&g, at(0, 7), at(6, 6), 4), Err(InvalidInput::Start));
    assert_eq!(find_path(&g, at(0, 1), at(0, 1), 4), Err(InvalidInput::Start));
    assert_eq!(find_path(&g, at(0, 1), at(1, 1), 4), Err(InvalidInput::Start));
    assert_eq!(find_path(&g, at(0, 1), at(1, 1), 0), Err(InvalidInput::Start));
}

#[test]
fn invalid_goal_is_rejected() {
    let g = serpentine();
    assert_eq!(find_path(&g, at(0, 0), at(1, 1), 4), Err(InvalidInput::Goal));
    assert_eq!(find_path(&g, at(0, 0), at(7, 7), 4), Err(InvalidInput::Goal));
    assert_eq!(find_path(&g, at(0, 0), at(usize::MAX, 0), 4), Err(InvalidInput::Goal));
    assert_eq!(find_path(&g, at(0, 0), at(1, 1), 0), Err(InvalidInput::Goal));
}

#[test]
fn empty_grid_rejects_every_start() {
    let g = Grid::from_rows(&Vec::new()).unwrap();
    assert_eq!(find_path(&g, at(0, 0), at(0, 0), 1), Err(InvalidInput::Start));
}

#[test]
fn no_worker_finds_no_path() {
    let g = grid_of(&["..."]);
    assert_eq!(find_path(&g, at(0, 0), at(0, 2), 0), Ok(None));
    assert_eq!(find_path(&g, at(0, 0), at(0, 2), 1), Ok(Some(vec![at(0, 0), at(0, 1), at(0, 2)])));
}

#[test]
fn neighbouring_goal_is_one_step_away() {
    let g = grid_of(&["..", ".."]);
    assert_eq!(find_path(&g, at(0, 0), at(1, 0), 3), Ok(Some(vec![at(0, 0), at(1, 0)])));
    assert_eq!(find_path(&g, at(1, 1), at(1, 0), 3), Ok(Some(vec![at(1, 1), at(1, 0)])));
}

#[test]
fn worker_count_changes_neither_outcome_nor_length() {
    let g = serpentine();
    for workers in [1usize, 2, 6, 32] {
        let path = find_path(&g, at(0, 0), at(6, 6), workers).unwrap().unwrap();
        assert_eq!(path.len() - 1, 24);
        assert_eq!(find_path(&g, at(0, 0), at(6, 0), workers).unwrap().unwrap().len() - 1, 14);
    }
    let open = grid_of(&[".....", ".....", ".....", ".....", "....."]);
    for workers in [1usize, 2, 6, 32] {
        let path = find_path(&open, at(0, 0), at(4, 4), workers).unwrap().unwrap();
        assert_eq!(path.len() - 1, 8);
        let path = find_path(&open, at(2, 2), at(0, 4), workers).unwrap().unwrap();
        assert_eq!(path.len() - 1, 4);
    }
}

#[test]
fn a_detour_that_several_workers_race_on_stays_shortest() {
    let g = grid_of(&[
        ".......",
        ".#####.",
        ".#...#.",
        ".#.#.#.",
        "...#...",
    ]);
    for workers in [1usize, 2, 3, 4, 8, 32] {
        let path = find_path(&g, at(4, 2), at(4, 4), workers).unwrap().unwrap();
        assert_eq!(path.len() - 1, 6);
        let path = find_path(&g, at(0, 3), at(2, 3), workers).unwrap().unwrap();
        assert_eq!(path.len() - 1, 12);
    }
}

#[test]
fn found_paths_match_a_plain_search_on_scrambled_grids() {
    for seed in 0..12u64 {
        let rows = 3 + (seed as usize % 4);
        let cols = 4 + (seed as usize % 3);
        let open = scrambled(rows, cols, seed + 1);
        let g = Grid::from_rows(&open).unwrap();
        for sr in 0..rows {
            for sc in 0..cols {
                if !open[sr][sc] {
                    continue;
                }
                let dist = distances(&open, (sr, sc));
                for gr in 0..rows {
                    for gc in 0..cols {
                        if !open[gr][gc] {
                            continue;
                        }
                        for workers in [1usize, 3] {
                            let found = find_path(&g, at(sr, sc), at(gr, gc), workers).unwrap();
                            match (found, dist[gr][gc]) {
                                (Some(path), Some(d)) => {
                                    assert_eq!(path.len() - 1, d);
                                    assert_is_walk(&open, &path, at(sr, sc), at(gr, gc));
                                },
                                (None, None) => {},
                                (found, d) => panic!("{:?} against distance {:?}", found, d),
                            }
                        }
                    }
                }
            }
        }
    }
}

#[test]
fn found_path_is_a_walk_without_repeats() {
    let open: Vec<Vec<bool>> = vec![
        vec![true, true, true, true, true, true],
        vec![true, false, false, false, false, true],
        vec![true, true, true, true, false, true],
        vec![false, false, false, true, false, true],
        vec![true, true, true, true, true, true],
    ];
    let g = Grid::from_rows(&open).unwrap();
    for workers in [1usize, 2, 5, 32] {
        let path = find_path(&g, at(0, 0), at(4, 0), workers).unwrap().unwrap();
        assert_is_walk(&open, &path, at(0, 0), at(4, 0));
        assert_eq!(path.len() - 1, 10);
    }
}

#[test]
fn repeated_searches_with_eight_workers_agree() {
    let g = serpentine();
    for _ in 0..100 {
        let path = find_path(&g, at(0, 0), at(6, 6), 8).unwrap().unwrap();
        assert_eq!(path.len() - 1, 24);
    }
}

#[test]
fn huge_worker_count_is_no_burden() {
    let g = serpentine();
    let path = find_path(&g, at(0, 0), at(6, 6), usize::MAX).unwrap().unwrap();
    assert_eq!(path.len() - 1, 24);
}
