//! The coordinator: it validates the input, seeds the shared state, lets the
//! workers take turns on it and returns what the first successful worker
//! reports.

use vstd::prelude::*;
use crate::grid::Grid;
use crate::model::{
    Coordinate, connects, is_path, is_shortest, lemma_neighbors_are_steps, lemma_path_cells_open,
    open_at, reachable, step,
};
use crate::state::SearchState;
use crate::worker::{Phase, Worker};

verus! {

/// Why a search was rejected before it began.
#[derive(Clone, Copy, Debug, PartialEq, Eq, Structural)]
pub enum InvalidInput {
    /// The start lies outside the grid or on a blocked cell.
    Start,
    /// The goal lies outside the grid or on a blocked cell.
    Goal,
}

/// What a search returns: a path, no path, or a rejection.
pub type Outcome = Result<Option<Seq<Coordinate>>, InvalidInput>;

/// The result of a search, with the path taken by its view.
pub open spec fn outcome_of(out: Result<Option<Vec<Coordinate>>, InvalidInput>) -> Outcome {
    match out {
        Ok(Some(p)) => Ok(Some(p@)),
        Ok(None) => Ok(None),
        Err(e) => Err(e),
    }
}

/// `out` is a correct result of a search through `g` from `start` to `goal`
/// with `workers` workers.
///
/// An invalid start is rejected, then an invalid goal. A search from a cell to
/// itself yields that cell alone. With no worker nothing is explored and no
/// path is found. Otherwise the result is a shortest walk from `start` to
/// `goal` that visits no cell twice, or no path if `goal` cannot be reached.
pub open spec fn is_search_result(
    g: Seq<Seq<bool>>,
    start: Coordinate,
    goal: Coordinate,
    workers: nat,
    out: Outcome,
) -> bool {
    match out {
        Err(InvalidInput::Start) => !open_at(g, start),
        Err(InvalidInput::Goal) => open_at(g, start) && !open_at(g, goal),
        Ok(Some(p)) => {
            &&& open_at(g, start) && open_at(g, goal)
            &&& start == goal || workers > 0
            &&& is_shortest(g, p, start, goal)
            &&& p.no_duplicates()
            &&& start == goal ==> p == seq![start]
        },
        Ok(None) => {
            &&& open_at(g, start) && open_at(g, goal)
            &&& start != goal
            &&& workers == 0 || !reachable(g, start, goal)
        },
    }
}

/// Where the goal can be reached and at least one worker searches, the result
/// is a path from `start` to `goal`, and no walk from `start` to `goal` has
/// fewer cells: the number of its steps is the distance between the two.
pub proof fn lemma_found_path_is_shortest(
    g: Seq<Seq<bool>>,
    start: Coordinate,
    goal: Coordinate,
    workers: nat,
    out: Outcome,
)
    requires
        is_search_result(g, start, goal, workers, out),
        reachable(g, start, goal),
        workers > 0,
    ensures
        out matches Ok(Some(p)) && connects(g, p, start, goal) && forall|q: Seq<Coordinate>|
            connects(g, q, start, goal) ==> p.len() <= q.len(),
{
    let q = choose|q: Seq<Coordinate>| connects(g, q, start, goal);
    lemma_path_cells_open(g, q, 0);
    lemma_path_cells_open(g, q, q.len() - 1);
}

/// A path that a search returns begins at `start`, ends at `goal`, moves by
/// passable steps in the four cardinal directions and visits no cell twice.
pub proof fn lemma_found_path_is_walk(
    g: Seq<Seq<bool>>,
    start: Coordinate,
    goal: Coordinate,
    workers: nat,
    out: Outcome,
    p: Seq<Coordinate>,
)
    requires
        is_search_result(g, start, goal, workers, out),
        out == Outcome::Ok(Some(p)),
    ensures
        p.len() > 0,
        p.first() == start,
        p.last() == goal,
        forall|i: int| 0 <= i < p.len() - 1 ==> step(g, #[trigger] p[i], p[i + 1]),
        forall|i: int, j: int| 0 <= i < j < p.len() ==> p[i] != p[j],
{
    assert forall|i: int| 0 <= i < p.len() - 1 implies step(g, #[trigger] p[i], p[i + 1]) by {
        assert(step(g, p[i], p[i + 1]));
    }
}

/// A search from a passable cell to itself returns that cell alone, whatever
/// the number of workers.
pub proof fn lemma_search_to_itself(
    g: Seq<Seq<bool>>,
    start: Coordinate,
    workers: nat,
    out: Outcome,
)
    requires
        is_search_result(g, start, start, workers, out),
        open_at(g, start),
    ensures
        out == Outcome::Ok(Some(seq![start])),
{
}

/// Where no walk leads from `start` to `goal`, a search between the two finds
/// no path, whatever the number of workers.
pub proof fn lemma_unreachable_goal(
    g: Seq<Seq<bool>>,
    start: Coordinate,
    goal: Coordinate,
    workers: nat,
    out: Outcome,
)
    requires
        is_search_result(g, start, goal, workers, out),
        open_at(g, start),
        open_at(g, goal),
        !reachable(g, start, goal),
    ensures
        out == Outcome::Ok(None),
{
    if let Ok(Some(p)) = out {
        assert(connects(g, p, start, goal));
    }
}

/// Two searches of one grid between the same cells agree, however many
/// workers each has, as long as each has one: both are rejected for the same
/// reason, or both find no path, or both find paths of the same length.
pub proof fn lemma_worker_count_is_immaterial(
    g: Seq<Seq<bool>>,
    start: Coordinate,
    goal: Coordinate,
    workers_a: nat,
    workers_b: nat,
    a: Outcome,
    b: Outcome,
)
    requires
        is_search_result(g, start, goal, workers_a, a),
        is_search_result(g, start, goal, workers_b, b),
        workers_a > 0,
        workers_b > 0,
    ensures
        match a {
            Ok(Some(p)) => b matches Ok(Some(q)) && p.len() == q.len(),
            Ok(None) => b == Outcome::Ok(None),
            Err(e) => b == Outcome::Err(e),
        },
{
    match (a, b) {
        (Ok(Some(p)), Ok(Some(q))) => {
            assert(connects(g, p, start, goal));
            assert(connects(g, q, start, goal));
        },
        (Ok(Some(p)), Ok(None)) => {
            assert(connects(g, p, start, goal));
        },
        (Ok(None), Ok(Some(q))) => {
            assert(connects(g, q, start, goal));
        },
        _ => {},
    }
}

/// The cells that the given workers hold, in order.
pub open spec fn cells_held(ws: Seq<Worker>) -> Seq<Coordinate> {
    Seq::new(ws.len(), |k: int| ws[k].cell.unwrap())
}

/// Every one of the given workers runs, looks for `goal` and holds a cell.
pub open spec fn all_expanding(ws: Seq<Worker>, goal: Coordinate) -> bool {
    forall|k: int|
        0 <= k < ws.len() ==> (#[trigger] ws[k]).goal == goal && ws[k].phase == Phase::Running
            && ws[k].cell.is_some()
}

/// Searches `grid` for a shortest path from `start` to `goal` with
/// `worker_count` workers that share one search state.
///
/// The workers take turns in rounds. In a round each worker in turn claims a
/// cell, as long as the state hands one out; then each hands in the
/// neighbours of its cell. The search ends when a worker claims the goal and
/// reports the path to it, or when the state is exhausted.
pub fn find_path(grid: &Grid, start: Coordinate, goal: Coordinate, worker_count: usize) -> (out:
    Result<Option<Vec<Coordinate>>, InvalidInput>)
    requires
        grid.wf(),
    ensures
        is_search_result(grid@, start, goal, worker_count as nat, outcome_of(out)),
{
    let mut state = match SearchState::new(grid, start) {
        Some(s) => s,
        None => {
            return Err(InvalidInput::Start);
        },
    };
    if !grid.is_passable(goal) {
        return Err(InvalidInput::Goal);
    }
    if start == goal {
        let mut path: Vec<Coordinate> = Vec::new();
        path.push(start);
        proof {
            assert(path@ =~= seq![start]);
            assert(is_path(grid@, path@));
        }
        return Ok(Some(path));
    }
    if worker_count == 0 {
        return Ok(None);
    }
    let mut holding: Vec<Worker> = Vec::new();
    loop
        invariant
            grid.wf(),
            worker_count > 0,
            start != goal,
            open_at(grid@, start),
            open_at(grid@, goal),
            state.wf(),
            state@.grid == grid@,
            state@.root == start,
            !state@.goal_reached,
            !state@.taken(goal),
            state@.in_flight.len() == 0,
            holding@.len() == 0,
        decreases state.unclaimed(),
    {
        let ghost budget = state.unclaimed();
        let mut turn: usize = 0;
        while turn < worker_count
            invariant
                grid.wf(),
                worker_count > 0,
                start != goal,
                open_at(grid@, start),
                open_at(grid@, goal),
                state.wf(),
                state@.grid == grid@,
                state@.root == start,
                !state@.goal_reached,
                !state@.taken(goal),
                state@.in_flight == cells_held(holding@),
                all_expanding(holding@, goal),
                turn <= worker_count,
                turn == 0 ==> holding@.len() == 0 && state.unclaimed() == budget,
                turn > 0 ==> holding@.len() > 0 && state.unclaimed() < budget,
            decreases worker_count - turn,
        {
            let ghost before = state@;
            let mut worker = Worker::new(goal);
            let found = worker.claim(&mut state);
            match found {
                Some(path) => {
                    proof {
                        state@.lemma_chain_shortest(path@, goal);
                    }
                    return Ok(Some(path));
                },
                None => {},
            }
            match worker.phase {
                Phase::Running => {
                    if worker.cell.is_some() {
                        proof {
                            assert(state@ == before.claim());
                            assert(state@.in_flight =~= before.in_flight.push(worker.cell.unwrap()));
                        }
                        holding.push(worker);
                        proof {
                            assert(state@.in_flight =~= cells_held(holding@));
                        }
                        turn += 1;
                    } else {
                        assert(turn > 0);
                        turn = worker_count;
                    }
                },
                _ => {
                    proof {
                        assert(before.exhausted());
                        assert forall|p: Seq<Coordinate>| !connects(grid@, p, start, goal) by {
                            if connects(grid@, p, start, goal) {
                                before.lemma_exhausted_reach(p);
                            }
                        }
                    }
                    return Ok(None);
                },
            }
        }
        while holding.len() > 0
            invariant
                grid.wf(),
                worker_count > 0,
                start != goal,
                open_at(grid@, start),
                open_at(grid@, goal),
                state.wf(),
                state@.grid == grid@,
                state@.root == start,
                !state@.goal_reached,
                !state@.taken(goal),
                state@.in_flight == cells_held(holding@),
                all_expanding(holding@, goal),
                state.unclaimed() < budget,
            decreases holding@.len(),
        {
            let ghost before = state@;
            let ghost others = holding@.drop_last();
            let mut worker = holding.pop().unwrap();
            let cell = worker.cell.unwrap();
            let neighbors = worker.expand(grid);
            proof {
                let last = before.in_flight.len() - 1;
                assert(before.in_flight[last] == cell);
                assert(before.claimed(before.in_flight[last]));
                assert(before.seen(cell));
                assert forall|n: Coordinate| #[trigger] step(before.grid, cell, n) implies neighbors@.contains(
                    n,
                ) by {
                    lemma_neighbors_are_steps(grid@, cell, n);
                }
                before.lemma_expand(cell, neighbors@);
                assert(before.in_flight.no_duplicates());
                assert(before.in_flight.index_of(cell) == last);
                assert(before.in_flight.remove(last) =~= cells_held(others));
                assert(before.expand(cell, neighbors@).taken(goal) == before.taken(goal));
            }
            let closed = worker.commit(&mut state, &neighbors);
            assert(closed);
        }
    }
}

} // verus!
