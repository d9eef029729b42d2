//! A worker: one of the units that expand the frontier of a shared search.
//!
//! A worker alternates between two critical sections on the shared state,
//! [`Worker::claim`] and [`Worker::commit`]; between them it computes the
//! neighbours of the cell it holds with [`Worker::expand`], which reads the
//! grid alone and needs no access to the state.

use vstd::prelude::*;
use crate::grid::Grid;
use crate::machine::{SearchView, is_chain};
use crate::model::{Coordinate, neighbors_of};
use crate::state::SearchState;

verus! {

/// Where a worker stands.
#[derive(Clone, Copy, Debug, PartialEq, Eq, Structural)]
pub enum Phase {
    /// The worker takes part in the search.
    Running,
    /// The worker has left the search without a result: the goal was reported
    /// by another worker, or the search is exhausted.
    Stopped,
    /// The worker has claimed the goal and reported the path to it.
    Reported,
}

/// A worker of a search for `goal`.
#[derive(Clone, Copy, Debug)]
pub struct Worker {
    /// The cell that the search looks for.
    pub goal: Coordinate,
    /// Where the worker stands.
    pub phase: Phase,
    /// The cell that the worker has claimed and not yet handed back.
    pub cell: Option<Coordinate>,
}

impl Worker {
    /// The worker is running and holds no cell: it is ready to claim one.
    pub open spec fn idle(self) -> bool {
        self.phase == Phase::Running && self.cell.is_none()
    }

    /// [`Worker::claim`] on a state that stands for `v` takes a cell from the
    /// frontier.
    pub open spec fn claims(self, v: SearchView) -> bool {
        self.idle() && !v.goal_reached && v.can_claim()
    }

    /// The worker after [`Worker::claim`] on a state that stands for `v`.
    pub open spec fn after_claim(self, v: SearchView) -> Worker {
        if !self.idle() {
            self
        } else if v.goal_reached {
            Worker { phase: Phase::Stopped, ..self }
        } else if v.can_claim() {
            if v.frontier[0] == self.goal {
                Worker { phase: Phase::Reported, ..self }
            } else {
                Worker { cell: Some(v.frontier[0]), ..self }
            }
        } else if v.exhausted() {
            Worker { phase: Phase::Stopped, ..self }
        } else {
            self
        }
    }

    /// The state after [`Worker::claim`] on a state that stands for `v`.
    pub open spec fn state_after_claim(self, v: SearchView) -> SearchView {
        if !self.idle() || v.goal_reached || !v.can_claim() {
            v
        } else if v.frontier[0] == self.goal {
            v.claim().mark_goal()
        } else {
            v.claim()
        }
    }

    /// A running worker that holds no cell.
    pub fn new(goal: Coordinate) -> (w: Worker)
        ensures
            w == (Worker { goal, phase: Phase::Running, cell: None }),
    {
        Worker { goal, phase: Phase::Running, cell: None }
    }

    /// One visit to the shared state by a worker that is ready to claim.
    ///
    /// The worker stops if the goal has been reported. Otherwise it claims the
    /// next cell. If that cell is the goal, it raises the goal flag, reports
    /// the chain of parents from the start to the goal and returns it. If
    /// there is nothing to claim, it stops if the search is exhausted and else
    /// stays as it is, to come back later. A worker that is not ready to claim
    /// changes nothing.
    pub fn claim(&mut self, state: &mut SearchState) -> (path: Option<Vec<Coordinate>>)
        requires
            old(state).wf(),
        ensures
            final(state).wf(),
            *final(self) == old(self).after_claim(old(state)@),
            final(state)@ == old(self).state_after_claim(old(state)@),
            path.is_some() == (old(self).idle() && final(self).phase == Phase::Reported),
            path matches Some(p) ==> is_chain(
                final(state)@.parents,
                p@,
                final(state)@.root,
                old(self).goal,
            ),
            if old(self).claims(old(state)@) {
                final(state).unclaimed() < old(state).unclaimed()
            } else {
                final(state).unclaimed() == old(state).unclaimed()
            },
    {
        if !(self.phase == Phase::Running) || self.cell.is_some() {
            return None;
        }
        if state.goal_reached() {
            self.phase = Phase::Stopped;
            return None;
        }
        match state.try_claim_next() {
            Some(c) => {
                if c == self.goal {
                    state.mark_goal_reached();
                    self.phase = Phase::Reported;
                    assert(state@.seen(c));
                    let path = state.reconstruct_path(state.start(), c);
                    path
                } else {
                    self.cell = Some(c);
                    None
                }
            },
            None => {
                if state.is_exhausted() {
                    self.phase = Phase::Stopped;
                }
                None
            },
        }
    }

    /// The neighbours of the cell that the worker holds; none if it holds no
    /// cell. This reads the grid alone.
    pub fn expand(&self, grid: &Grid) -> (out: Vec<Coordinate>)
        requires
            grid.wf(),
        ensures
            out@ == match self.cell {
                Some(c) => neighbors_of(grid@, c),
                None => Seq::<Coordinate>::empty(),
            },
    {
        match self.cell {
            Some(c) => grid.neighbors(c),
            None => Vec::new(),
        }
    }

    /// Hands in `neighbors` as the neighbours of the cell that the worker
    /// holds: each is admitted if it can be, then the expansion is closed if
    /// it can be. Returns whether the expansion was closed; the worker then
    /// holds no cell. A worker that holds no cell changes nothing.
    pub fn commit(&mut self, state: &mut SearchState, neighbors: &Vec<Coordinate>) -> (closed: bool)
        requires
            old(state).wf(),
        ensures
            final(state).wf(),
            final(state).unclaimed() == old(state).unclaimed(),
            match old(self).cell {
                Some(c) => {
                    &&& final(state)@ == old(state)@.expand(c, neighbors@)
                    &&& closed == old(state)@.admit_all(neighbors@, c).can_finish(c)
                },
                None => !closed && final(state)@ == old(state)@,
            },
            *final(self) == if closed {
                Worker { cell: None, ..*old(self) }
            } else {
                *old(self)
            },
    {
        let c = match self.cell {
            Some(c) => c,
            None => {
                return false;
            },
        };
        let mut i: usize = 0;
        while i < neighbors.len()
            invariant
                i <= neighbors@.len(),
                state.wf(),
                state.unclaimed() == old(state).unclaimed(),
                state@ == old(state)@.admit_all(neighbors@.take(i as int), c),
            decreases neighbors@.len() - i,
        {
            state.admit_cell(neighbors[i], c);
            proof {
                let head = neighbors@.take(i as int);
                let next = neighbors@.take(i + 1);
                assert(next.drop_last() =~= head);
                assert(next.last() == neighbors@[i as int]);
            }
            i += 1;
        }
        assert(neighbors@.take(i as int) =~= neighbors@);
        let closed = state.finish(c);
        if closed {
            self.cell = None;
        }
        closed
    }
}

} // verus!
