use parallel_bfs::{CellState, Coordinate, Grid, SearchState};

fn at(row: usize, col: usize) -> Coordinate {
    Coordinate { row, col }
}

fn grid_of(lines: &[&str]) -> Grid {
    let maze: Vec<Vec<char>> = lines.iter().map(|l| l.chars().collect()).collect();
    Grid::from_chars(&maze).unwrap()
}

#[test]
fn new_state_holds_the_start_alone() {
    let g = grid_of(&["...", ".#.", "..."]);
    let s = SearchState::new(&g, at(0, 0)).unwrap();
    assert_eq!(s.start(), at(0, 0));
    assert_eq!(s.frontier_len(), 1);
    assert_eq!(s.in_flight_len(), 0);
    assert!(!s.goal_reached());
    assert!(!s.is_exhausted());
    assert!(s.is_visited(at(0, 0)));
    assert!(!s.is_visited(at(0, 1)));
    assert_eq!(s.status_of(at(0, 0)), Some(CellState::Queued));
    assert_eq!(s.status_of(at(1, 1)), Some(CellState::Unseen));
    assert_eq!(s.status_of(at(3, 0)), None);
    assert_eq!(s.parent_of(at(0, 0)), None);
}

#[test]
fn new_state_refuses_a_start_that_is_not_passable() {
    let g = grid_of(&["..", ".#"]);
    assert!(SearchState::new(&g, at(1, 1)).is_none());
    assert!(SearchState::new(&g, at(2, 0)).is_none());
    assert!(SearchState::new(&g, at(0, 2)).is_none());
    assert!(SearchState::new(&g, at(1, 0)).is_some());
}

#[test]
fn claim_takes_the_oldest_cell() {
    let g = grid_of(&["..."]);
    let mut s = SearchState::new(&g, at(0, 1)).unwrap();
    assert_eq!(s.try_claim_next(), Some(at(0, 1)));
    assert_eq!(s.status_of(at(0, 1)), Some(CellState::Claimed));
    assert_eq!(s.frontier_len(), 0);
    assert_eq!(s.in_flight_len(), 1);
    assert_eq!(s.try_claim_next(), None);
    assert!(!s.is_exhausted());
}

#[test]
fn admission_marks_queues_and_records_the_parent() {
    let g = grid_of(&["..."]);
    let mut s = SearchState::new(&g, at(0, 1)).unwrap();
    s.try_claim_next();
    assert!(s.admit_cell(at(0, 2), at(0, 1)));
    assert!(s.is_visited(at(0, 2)));
    assert_eq!(s.status_of(at(0, 2)), Some(CellState::Queued));
    assert_eq!(s.parent_of(at(0, 2)), Some(at(0, 1)));
    assert_eq!(s.frontier_len(), 1);
}

#[test]
fn admission_happens_once_and_the_first_parent_stays() {
    let g = grid_of(&["..", ".."]);
    let mut s = SearchState::new(&g, at(0, 0)).unwrap();
    s.try_claim_next();
    assert!(s.admit_cell(at(1, 0), at(0, 0)));
    assert!(s.admit_cell(at(0, 1), at(0, 0)));
    assert!(!s.admit_cell(at(1, 0), at(0, 0)));
    assert!(s.finish(at(0, 0)));
    assert_eq!(s.try_claim_next(), Some(at(1, 0)));
    assert_eq!(s.try_claim_next(), Some(at(0, 1)));
    assert!(s.admit_cell(at(1, 1), at(1, 0)));
    assert!(!s.admit_cell(at(1, 1), at(0, 1)));
    assert_eq!(s.parent_of(at(1, 1)), Some(at(1, 0)));
    assert_eq!(s.frontier_len(), 1);
    assert!(!s.admit_cell(at(0, 0), at(1, 0)));
    assert_eq!(s.parent_of(at(0, 0)), None);
}

#[test]
fn admission_needs_a_parent_under_expansion() {
    let g = grid_of(&["..."]);
    let mut s = SearchState::new(&g, at(0, 0)).unwrap();
    assert!(!s.admit_cell(at(0, 1), at(0, 0)));
    s.try_claim_next();
    assert!(s.admit_cell(at(0, 1), at(0, 0)));
    assert!(!s.admit_cell(at(0, 2), at(0, 1)));
    assert!(s.finish(at(0, 0)));
    assert!(!s.admit_cell(at(0, 2), at(0, 0)));
    assert!(!s.admit_cell(at(0, 2), at(0, 5)));
    assert!(!s.is_visited(at(0, 2)));
}

#[test]
fn admission_needs_a_passable_neighbour() {
    let g = grid_of(&["..#", "...", "..."]);
    let mut s = SearchState::new(&g, at(0, 1)).unwrap();
    s.try_claim_next();
    assert!(!s.admit_cell(at(0, 2), at(0, 1)));
    assert!(!s.admit_cell(at(2, 1), at(0, 1)));
    assert!(!s.admit_cell(at(1, 2), at(0, 1)));
    assert!(!s.admit_cell(at(0, 1), at(0, 1)));
    assert!(!s.admit_cell(at(0, 7), at(0, 1)));
    assert!(!s.admit_cell(at(usize::MAX, 1), at(0, 1)));
    assert_eq!(s.frontier_len(), 0);
    assert!(s.admit_cell(at(1, 1), at(0, 1)));
    assert!(s.admit_cell(at(0, 0), at(0, 1)));
    assert_eq!(s.frontier_len(), 2);
}

#[test]
fn finish_needs_every_neighbour_discovered() {
    let g = grid_of(&["...", "..."]);
    let mut s = SearchState::new(&g, at(0, 1)).unwrap();
    assert!(!s.finish(at(0, 1)));
    s.try_claim_next();
    assert!(!s.finish(at(0, 1)));
    assert!(s.admit_cell(at(1, 1), at(0, 1)));
    assert!(s.admit_cell(at(0, 2), at(0, 1)));
    assert!(!s.finish(at(0, 1)));
    assert_eq!(s.in_flight_len(), 1);
    assert!(s.admit_cell(at(0, 0), at(0, 1)));
    assert!(!s.finish(at(0, 0)));
    assert!(!s.finish(at(3, 3)));
    assert!(s.finish(at(0, 1)));
    assert_eq!(s.status_of(at(0, 1)), Some(CellState::Done));
    assert_eq!(s.in_flight_len(), 0);
    assert!(!s.finish(at(0, 1)));
}

#[test]
fn next_layer_waits_for_the_current_one() {
    let g = grid_of(&["...", "...", "..."]);
    let mut s = SearchState::new(&g, at(0, 0)).unwrap();
    assert_eq!(s.try_claim_next(), Some(at(0, 0)));
    assert!(s.admit_cell(at(1, 0), at(0, 0)));
    assert_eq!(s.try_claim_next(), None);
    assert!(s.admit_cell(at(0, 1), at(0, 0)));
    assert_eq!(s.try_claim_next(), None);
    assert!(s.finish(at(0, 0)));
    assert_eq!(s.try_claim_next(), Some(at(1, 0)));
    assert_eq!(s.try_claim_next(), Some(at(0, 1)));
    assert_eq!(s.in_flight_len(), 2);
    assert!(s.admit_cell(at(0, 2), at(0, 1)));
    assert!(s.admit_cell(at(1, 1), at(0, 1)));
    assert!(s.finish(at(0, 1)));
    assert_eq!(s.frontier_len(), 2);
    assert_eq!(s.try_claim_next(), None);
    assert!(s.admit_cell(at(2, 0), at(1, 0)));
    assert!(s.finish(at(1, 0)));
    assert_eq!(s.try_claim_next(), Some(at(0, 2)));
    assert_eq!(s.try_claim_next(), Some(at(1, 1)));
    assert_eq!(s.try_claim_next(), Some(at(2, 0)));
    assert_eq!(s.try_claim_next(), None);
}

#[test]
fn goal_flag_is_raised_once_and_for_all() {
    let g = grid_of(&[".."]);
    let mut s = SearchState::new(&g, at(0, 0)).unwrap();
    assert!(!s.goal_reached());
    s.mark_goal_reached();
    assert!(s.goal_reached());
    s.mark_goal_reached();
    assert!(s.goal_reached());
    assert_eq!(s.frontier_len(), 1);
}

#[test]
fn exhaustion_needs_an_empty_frontier_and_no_cell_in_flight() {
    let g = grid_of(&[".#."]);
    let mut s = SearchState::new(&g, at(0, 0)).unwrap();
    assert!(!s.is_exhausted());
    s.try_claim_next();
    assert!(!s.is_exhausted());
    assert!(s.finish(at(0, 0)));
    assert!(s.is_exhausted());
    assert_eq!(s.try_claim_next(), None);
    assert!(!s.is_visited(at(0, 2)));
}

#[test]
fn reconstruct_walks_the_parents_back_to_the_start() {
    let g = grid_of(&["...", "#..", "..."]);
    let mut s = SearchState::new(&g, at(0, 0)).unwrap();
    s.try_claim_next();
    assert!(s.admit_cell(at(0, 1), at(0, 0)));
    assert!(s.finish(at(0, 0)));
    assert_eq!(s.try_claim_next(), Some(at(0, 1)));
    assert!(s.admit_cell(at(1, 1), at(0, 1)));
    assert!(s.admit_cell(at(0, 2), at(0, 1)));
    assert!(s.finish(at(0, 1)));
    assert_eq!(s.try_claim_next(), Some(at(1, 1)));
    assert!(s.admit_cell(at(2, 1), at(1, 1)));
    assert_eq!(
        s.reconstruct_path(at(0, 0), at(2, 1)),
        Some(vec![at(0, 0), at(0, 1), at(1, 1), at(2, 1)])
    );
    assert_eq!(s.reconstruct_path(at(0, 0), at(0, 2)), Some(vec![at(0, 0), at(0, 1), at(0, 2)]));
    assert_eq!(s.reconstruct_path(at(0, 0), at(0, 0)), Some(vec![at(0, 0)]));
    assert_eq!(s.reconstruct_path(at(0, 1), at(2, 1)), Some(vec![at(0, 1), at(1, 1), at(2, 1)]));
}

#[test]
fn reconstruct_reports_a_chain_that_does_not_meet_the_start() {
    let g = grid_of(&["...", "#..", "..."]);
    let mut s = SearchState::new(&g, at(0, 0)).unwrap();
    s.try_claim_next();
    assert!(s.admit_cell(at(0, 1), at(0, 0)));
    assert_eq!(s.reconstruct_path(at(0, 0), at(2, 2)), None);
    assert_eq!(s.reconstruct_path(at(0, 0), at(9, 9)), None);
    assert_eq!(s.reconstruct_path(at(0, 2), at(0, 1)), None);
    assert_eq!(s.reconstruct_path(at(2, 2), at(2, 2)), Some(vec![at(2, 2)]));
}
