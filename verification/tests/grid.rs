use parallel_bfs::{Coordinate, Grid, Table};

fn at(row: usize, col: usize) -> Coordinate {
    Coordinate { row, col }
}

fn open_grid(rows: usize, cols: usize) -> Grid {
    Grid::from_rows(&vec![vec![true; cols]; rows]).unwrap()
}

#[test]
fn grid_from_rows_keeps_size_and_flags() {
    let g = Grid::from_rows(&vec![vec![true, false, true], vec![false, true, true]]).unwrap();
    assert_eq!(g.rows(), 2);
    assert_eq!(g.cols(), 3);
    assert!(g.is_passable(at(0, 0)));
    assert!(!g.is_passable(at(0, 1)));
    assert!(g.is_passable(at(0, 2)));
    assert!(!g.is_passable(at(1, 0)));
    assert!(g.is_passable(at(1, 1)));
    assert!(g.is_passable(at(1, 2)));
}

#[test]
fn grid_from_rows_rejects_ragged_rows() {
    assert!(Grid::from_rows(&vec![vec![true, true], vec![true]]).is_none());
    assert!(Grid::from_rows(&vec![vec![], vec![true]]).is_none());
}

#[test]
fn grid_without_rows_has_no_cells() {
    let g = Grid::from_rows(&Vec::new()).unwrap();
    assert_eq!(g.rows(), 0);
    assert_eq!(g.cols(), 0);
    assert!(!g.is_passable(at(0, 0)));
    assert_eq!(g.neighbors(at(0, 0)), Vec::<Coordinate>::new());
}

#[test]
fn grid_with_empty_rows_has_no_cells() {
    let g = Grid::from_rows(&vec![Vec::new(), Vec::new()]).unwrap();
    assert_eq!(g.rows(), 2);
    assert_eq!(g.cols(), 0);
    assert!(!g.is_passable(at(0, 0)));
    assert!(!g.is_passable(at(1, 0)));
}

#[test]
fn grid_from_chars_blocks_the_wall_character_only() {
    let g = Grid::from_chars(&vec![vec!['.', '#', ' '], vec!['#', 'x', '.']]).unwrap();
    assert!(g.is_passable(at(0, 0)));
    assert!(!g.is_passable(at(0, 1)));
    assert!(g.is_passable(at(0, 2)));
    assert!(!g.is_passable(at(1, 0)));
    assert!(g.is_passable(at(1, 1)));
    assert!(g.is_passable(at(1, 2)));
    assert_eq!(parallel_bfs::grid::WALL, '#');
}

#[test]
fn grid_from_chars_rejects_ragged_rows() {
    assert!(Grid::from_chars(&vec![vec!['.'], vec!['.', '.']]).is_none());
}

#[test]
fn passable_is_false_outside_the_grid() {
    let g = open_grid(2, 3);
    assert!(!g.is_passable(at(2, 0)));
    assert!(!g.is_passable(at(0, 3)));
    assert!(!g.is_passable(at(usize::MAX, usize::MAX)));
}

#[test]
fn neighbors_come_down_right_up_left() {
    let g = open_grid(3, 3);
    assert_eq!(g.neighbors(at(1, 1)), vec![at(2, 1), at(1, 2), at(0, 1), at(1, 0)]);
}

#[test]
fn neighbors_skip_blocked_cells() {
    let g = Grid::from_rows(&vec![
        vec![true, false, true],
        vec![true, true, false],
        vec![true, true, true],
    ])
    .unwrap();
    assert_eq!(g.neighbors(at(1, 1)), vec![at(2, 1), at(1, 0)]);
}

#[test]
fn neighbors_do_not_wrap_at_the_edges() {
    let g = open_grid(3, 4);
    assert_eq!(g.neighbors(at(0, 0)), vec![at(1, 0), at(0, 1)]);
    assert_eq!(g.neighbors(at(0, 3)), vec![at(1, 3), at(0, 2)]);
    assert_eq!(g.neighbors(at(2, 0)), vec![at(2, 1), at(1, 0)]);
    assert_eq!(g.neighbors(at(2, 3)), vec![at(1, 3), at(2, 2)]);
    assert_eq!(g.neighbors(at(0, 2)), vec![at(1, 2), at(0, 3), at(0, 1)]);
}

#[test]
fn neighbors_of_an_isolated_cell_are_none() {
    let g = Grid::from_rows(&vec![
        vec![false, false, false],
        vec![false, true, false],
        vec![false, false, false],
    ])
    .unwrap();
    assert_eq!(g.neighbors(at(1, 1)), Vec::<Coordinate>::new());
    let single = open_grid(1, 1);
    assert_eq!(single.neighbors(at(0, 0)), Vec::<Coordinate>::new());
}

#[test]
fn neighbors_of_a_cell_outside_are_those_inside_one_step_away() {
    let g = open_grid(2, 2);
    assert_eq!(g.neighbors(at(2, 1)), vec![at(1, 1)]);
    assert_eq!(g.neighbors(at(0, 2)), vec![at(0, 1)]);
    assert_eq!(g.neighbors(at(5, 5)), Vec::<Coordinate>::new());
    assert_eq!(g.neighbors(at(usize::MAX, 0)), Vec::<Coordinate>::new());
    assert_eq!(g.neighbors(at(0, usize::MAX)), Vec::<Coordinate>::new());
    assert_eq!(g.neighbors(at(usize::MAX, usize::MAX)), Vec::<Coordinate>::new());
}

#[test]
fn neighbors_of_a_blocked_cell_are_still_listed() {
    let g = Grid::from_rows(&vec![vec![true, false, true]]).unwrap();
    assert_eq!(g.neighbors(at(0, 1)), vec![at(0, 2), at(0, 0)]);
}

#[test]
fn adjacency_is_one_cardinal_step() {
    assert!(at(1, 1).is_adjacent(at(2, 1)));
    assert!(at(1, 1).is_adjacent(at(0, 1)));
    assert!(at(1, 1).is_adjacent(at(1, 2)));
    assert!(at(1, 1).is_adjacent(at(1, 0)));
    assert!(!at(1, 1).is_adjacent(at(1, 1)));
    assert!(!at(1, 1).is_adjacent(at(2, 2)));
    assert!(!at(1, 1).is_adjacent(at(3, 1)));
    assert!(!at(0, 0).is_adjacent(at(usize::MAX, 0)));
    assert!(!at(0, usize::MAX).is_adjacent(at(0, 0)));
    assert!(at(usize::MAX, 3).is_adjacent(at(usize::MAX - 1, 3)));
}

#[test]
fn table_filled_holds_the_value_everywhere() {
    let t = Table::filled(2, 3, 7u8).unwrap();
    assert_eq!(t.row_count(), 2);
    assert_eq!(t.col_count(), 3);
    for row in 0..2 {
        for col in 0..3 {
            assert!(t.holds(at(row, col)));
            assert_eq!(t.get(at(row, col)), 7);
        }
    }
    assert!(!t.holds(at(2, 0)));
    assert!(!t.holds(at(0, 3)));
}

#[test]
fn table_filled_refuses_a_size_beyond_the_index_type() {
    assert!(Table::filled(usize::MAX, 2, 0u8).is_none());
    assert!(Table::filled(0, usize::MAX, 0u8).is_some());
}

#[test]
fn table_from_rows_reads_row_after_row() {
    let t = Table::from_rows(&vec![vec![1u8, 2, 3], vec![4, 5, 6]]).unwrap();
    assert_eq!(t.get(at(0, 0)), 1);
    assert_eq!(t.get(at(0, 2)), 3);
    assert_eq!(t.get(at(1, 0)), 4);
    assert_eq!(t.get(at(1, 2)), 6);
    assert!(Table::from_rows(&vec![vec![1u8], vec![]]).is_none());
}

#[test]
fn table_set_changes_one_entry() {
    let mut t = Table::from_rows(&vec![vec![1u8, 2, 3], vec![4, 5, 6]]).unwrap();
    t.set(at(1, 1), 9);
    assert_eq!(t.get(at(0, 0)), 1);
    assert_eq!(t.get(at(0, 1)), 2);
    assert_eq!(t.get(at(0, 2)), 3);
    assert_eq!(t.get(at(1, 0)), 4);
    assert_eq!(t.get(at(1, 1)), 9);
    assert_eq!(t.get(at(1, 2)), 6);
}
