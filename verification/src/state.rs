//! The shared state of a search and the operations that workers apply to it.
//!
//! Each operation is one transition of [`SearchView`] and is meant to run as
//! one critical section. An operation that is not possible in the current
//! state changes nothing and says so in its result, whoever calls it and in
//! whatever order, so the invariant of the search never depends on the
//! discipline of the callers.

use std::collections::VecDeque;
use vstd::prelude::*;
use crate::grid::Grid;
use crate::machine::{CellState, SearchView, hangs_on, is_chain};
use crate::model::{Coordinate, adjacent, inside, open_at, step};
use crate::table::Table;

verus! {

/// What the state records of one cell.
#[derive(Clone, Copy)]
struct Cell {
    open: bool,
    status: CellState,
    parent: Option<Coordinate>,
}

/// The cell has not been claimed yet.
spec fn pending(c: Cell) -> bool {
    c.status == CellState::Unseen || c.status == CellState::Queued
}

/// The frontier queue, the marks and parents of all cells, the cells under
/// expansion and the goal flag of one search.
pub struct SearchState {
    cells: Table<Cell>,
    frontier: VecDeque<Coordinate>,
    in_flight: Vec<Coordinate>,
    layer_left: usize,
    goal_reached: bool,
    root: Coordinate,
    depth: Ghost<Map<Coordinate, nat>>,
    layer: Ghost<nat>,
}

impl SearchState {
    /// The mathematical state that this value stands for.
    pub closed spec fn view(&self) -> SearchView {
        SearchView {
            grid: Seq::new(
                self.cells@.len(),
                |r: int| Seq::new(self.cells@[r].len(), |c: int| self.cells@[r][c].open),
            ),
            root: self.root,
            status: Map::new(
                |c: Coordinate| inside(self.cells@, c),
                |c: Coordinate| self.cells.at(c).status,
            ),
            parents: Map::new(
                |c: Coordinate| inside(self.cells@, c) && self.cells.at(c).parent.is_some(),
                |c: Coordinate| self.cells.at(c).parent.unwrap(),
            ),
            depth: self.depth@,
            frontier: self.frontier@,
            in_flight: self.in_flight@,
            layer: self.layer@,
            layer_left: self.layer_left as nat,
            goal_reached: self.goal_reached,
        }
    }

    /// The table of cells is well formed.
    pub closed spec fn stored(&self) -> bool {
        self.cells.wf()
    }

    /// The state is well formed: it stands for a state of the search that
    /// satisfies the invariant.
    pub open spec fn wf(&self) -> bool {
        self.stored() && self@.inv()
    }

    /// The number of cells that have not been claimed. Every claim lowers it.
    pub closed spec fn unclaimed(&self) -> nat {
        self.cells.count(|c: Cell| pending(c))
    }

    /// The state of a search of `grid` from `start`, with `start` discovered
    /// and waiting in the frontier; `None` if `start` is not a passable cell
    /// of the grid.
    pub fn new(grid: &Grid, start: Coordinate) -> (out: Option<SearchState>)
        requires
            grid.wf(),
        ensures
            out.is_some() == open_at(grid@, start),
            out matches Some(s) ==> s.wf() && s@ == SearchView::initial(grid@, start),
    {
        if !grid.is_passable(start) {
            return None;
        }
        let rows = grid.rows();
        let cols = grid.cols();
        proof {
            grid.lemma_area();
        }
        let blank = Cell { open: false, status: CellState::Unseen, parent: None };
        let mut cells = Table::filled(rows, cols, blank).unwrap();
        let mut r: usize = 0;
        while r < rows
            invariant
                grid.wf(),
                rows == grid@.len(),
                cols == grid.width(),
                cells.wf(),
                cells.height() == rows,
                cells.width() == cols,
                r <= rows,
                forall|x: Coordinate|
                    inside(cells@, x) ==> #[trigger] cells.at(x) == (Cell {
                        open: x.row < r && open_at(grid@, x),
                        status: CellState::Unseen,
                        parent: None,
                    }),
            decreases rows - r,
        {
            let mut c: usize = 0;
            while c < cols
                invariant
                    grid.wf(),
                    rows == grid@.len(),
                    cols == grid.width(),
                    cells.wf(),
                    cells.height() == rows,
                    cells.width() == cols,
                    r < rows,
                    c <= cols,
                    forall|x: Coordinate|
                        inside(cells@, x) ==> #[trigger] cells.at(x) == (Cell {
                            open: (x.row < r || (x.row == r && x.col < c)) && open_at(grid@, x),
                            status: CellState::Unseen,
                            parent: None,
                        }),
                decreases cols - c,
            {
                let x = Coordinate { row: r, col: c };
                let ghost before = cells;
                if grid.is_passable(x) {
                    cells.set(x, Cell { open: true, status: CellState::Unseen, parent: None });
                }
                proof {
                    assert forall|y: Coordinate| inside(cells@, y) implies #[trigger] cells.at(y)
                        == (Cell {
                        open: (y.row < r || (y.row == r && y.col < c + 1)) && open_at(grid@, y),
                        status: CellState::Unseen,
                        parent: None,
                    }) by {
                        assert(inside(before@, y));
                        if y != x {
                            assert(cells.at(y) == before.at(y));
                        }
                    }
                }
                c += 1;
            }
            r += 1;
        }
        let ghost plain = cells;
        cells.set(start, Cell { open: true, status: CellState::Queued, parent: None });
        let mut frontier: VecDeque<Coordinate> = VecDeque::new();
        frontier.push_back(start);
        let s = SearchState {
            cells,
            frontier,
            in_flight: Vec::new(),
            layer_left: 1,
            goal_reached: false,
            root: start,
            depth: Ghost(Map::empty().insert(start, 0nat)),
            layer: Ghost(0nat),
        };
        proof {
            let init = SearchView::initial(grid@, start);
            assert forall|y: Coordinate| inside(grid@, y) implies inside(s.cells@, y)
                && #[trigger] s.cells.at(y) == (Cell {
                open: open_at(grid@, y),
                status: if y == start {
                    CellState::Queued
                } else {
                    CellState::Unseen
                },
                parent: None,
            }) by {
                assert(inside(plain@, y));
                if y != start {
                    assert(s.cells.at(y) == plain.at(y));
                }
            }
            assert forall|a: int, b: int|
                0 <= a < grid@.len() && 0 <= b < grid@[a].len() implies #[trigger] s@.grid[a][b]
                == grid@[a][b] by {
                let y = Coordinate { row: a as usize, col: b as usize };
                assert(inside(grid@, y));
                assert(s.cells.at(y).open == open_at(grid@, y));
            }
            assert forall|a: int| 0 <= a < grid@.len() implies #[trigger] s@.grid[a] =~= grid@[a] by {
                assert(s@.grid[a].len() == grid@[a].len());
            }
            assert(s@.grid =~~= grid@);
            assert(s@.status =~= init.status);
            assert(s@.parents =~= init.parents);
            assert(s@.frontier =~= init.frontier);
            assert(s@.in_flight =~= init.in_flight);
            assert(s@ == init);
            SearchView::lemma_initial_inv(grid@, start);
        }
        Some(s)
    }

    /// Takes the oldest cell from the frontier and records it as being
    /// expanded. Returns `None`, and changes nothing, if the frontier is empty
    /// or if its head belongs to the next layer while a cell of the current
    /// layer is still being expanded.
    pub fn try_claim_next(&mut self) -> (out: Option<Coordinate>)
        requires
            old(self).wf(),
        ensures
            final(self).wf(),
            out.is_some() == old(self)@.can_claim(),
            out matches Some(c) ==> c == old(self)@.frontier[0] && final(self)@ == old(self)@.claim()
                && final(self).unclaimed() < old(self).unclaimed(),
            out.is_none() ==> final(self)@ == old(self)@ && final(self).unclaimed() == old(
                self,
            ).unclaimed(),
    {
        if self.frontier.len() == 0 {
            return None;
        }
        if self.layer_left == 0 {
            if self.in_flight.len() > 0 {
                return None;
            }
            self.layer_left = self.frontier.len();
            self.layer = Ghost(self.layer@ + 1);
        }
        let ghost mid = self@;
        assert(mid == if old(self)@.layer_left == 0 {
            old(self)@.advance()
        } else {
            old(self)@
        });
        proof {
            if old(self)@.layer_left == 0 {
                old(self)@.lemma_advance_inv();
            }
        }
        let cell = self.frontier.pop_front().unwrap();
        assert(mid.frontier.len() > 0 && inside(mid.grid, mid.frontier[0]));
        self.layer_left = self.layer_left - 1;
        let was = self.cells.get(cell);
        self.cells.set(cell, Cell { open: was.open, status: CellState::Claimed, parent: was.parent });
        self.in_flight.push(cell);
        proof {
            let goal = mid.take();
            assert(self@.grid =~~= goal.grid);
            assert(self@.status =~= goal.status);
            assert(self@.parents =~= goal.parents);
            assert(self@.frontier =~= goal.frontier);
            assert(self@ == goal);
            mid.lemma_take_inv();
            assert(pending(was));
        }
        Some(cell)
    }

    /// Whether `n` is a passable cell that has not been discovered.
    fn is_unseen_open(&self, n: Coordinate) -> (b: bool)
        requires
            self.stored(),
        ensures
            b == (open_at(self@.grid, n) && !self@.seen(n)),
    {
        if self.cells.holds(n) {
            let x = self.cells.get(n);
            x.open && x.status == CellState::Unseen
        } else {
            false
        }
    }

    /// Admits `cell` as a discovery of `parent`: marks it, appends it to the
    /// frontier and records its parent. Returns whether the admission took
    /// place. It does, if and only if `parent` is being expanded and `cell` is
    /// a passable neighbour of it that had not been discovered; otherwise
    /// nothing changes.
    pub fn admit_cell(&mut self, cell: Coordinate, parent: Coordinate) -> (admitted: bool)
        requires
            old(self).wf(),
        ensures
            final(self).wf(),
            admitted == old(self)@.can_admit(cell, parent),
            admitted ==> final(self)@ == old(self)@.admit_cell(cell, parent),
            !admitted ==> final(self)@ == old(self)@,
            final(self).unclaimed() == old(self).unclaimed(),
    {
        if !self.cells.holds(parent) {
            return false;
        }
        if !(self.cells.get(parent).status == CellState::Claimed) {
            return false;
        }
        if !parent.is_adjacent(cell) || !self.is_unseen_open(cell) {
            return false;
        }
        let was = self.cells.get(cell);
        self.cells.set(
            cell,
            Cell { open: was.open, status: CellState::Queued, parent: Some(parent) },
        );
        self.frontier.push_back(cell);
        self.depth = Ghost(self.depth@.insert(cell, self.layer@ + 1));
        proof {
            let goal = old(self)@.admit_cell(cell, parent);
            assert(self@.grid =~~= goal.grid);
            assert(self@.status =~= goal.status);
            assert(self@.parents =~= goal.parents);
            assert(self@ == goal);
            old(self)@.lemma_admit_inv(cell, parent);
            assert(pending(was));
        }
        true
    }

    /// Closes the expansion of `cell`. Returns whether it did. It does, if and
    /// only if `cell` is being expanded and every passable cell one step away
    /// has been discovered; otherwise nothing changes.
    pub fn finish(&mut self, cell: Coordinate) -> (done: bool)
        requires
            old(self).wf(),
        ensures
            final(self).wf(),
            done == old(self)@.can_finish(cell),
            done ==> final(self)@ == old(self)@.finish(cell),
            !done ==> final(self)@ == old(self)@,
            final(self).unclaimed() == old(self).unclaimed(),
    {
        if !self.cells.holds(cell) {
            return false;
        }
        let was = self.cells.get(cell);
        if !(was.status == CellState::Claimed) {
            return false;
        }
        assert(self@.seen(cell));
        assert(open_at(self@.grid, cell));
        if cell.row < usize::MAX {
            let n = Coordinate { row: cell.row + 1, col: cell.col };
            if self.is_unseen_open(n) {
                assert(step(self@.grid, cell, n));
                return false;
            }
        }
        if cell.col < usize::MAX {
            let n = Coordinate { row: cell.row, col: cell.col + 1 };
            if self.is_unseen_open(n) {
                assert(step(self@.grid, cell, n));
                return false;
            }
        }
        if cell.row > 0 {
            let n = Coordinate { row: cell.row - 1, col: cell.col };
            if self.is_unseen_open(n) {
                assert(step(self@.grid, cell, n));
                return false;
            }
        }
        if cell.col > 0 {
            let n = Coordinate { row: cell.row, col: cell.col - 1 };
            if self.is_unseen_open(n) {
                assert(step(self@.grid, cell, n));
                return false;
            }
        }
        assert forall|n: Coordinate| #[trigger] step(self@.grid, cell, n) implies self@.seen(n) by {
            assert(adjacent(cell, n));
        }
        assert(self@.can_finish(cell));
        proof {
            self@.lemma_finish_inv(cell);
        }
        let mut k: usize = 0;
        while k < self.in_flight.len() && !(self.in_flight[k] == cell)
            invariant
                k <= self.in_flight@.len(),
                forall|j: int| 0 <= j < k ==> self.in_flight@[j] != cell,
            decreases self.in_flight@.len() - k,
        {
            k += 1;
        }
        proof {
            let j = self@.in_flight.index_of(cell);
            assert(0 <= j < self.in_flight@.len() && self.in_flight@[j] == cell);
            assert(k < self.in_flight@.len());
            assert(self@.in_flight.no_duplicates());
            assert(k == j);
        }
        self.in_flight.remove(k);
        self.cells.set(cell, Cell { open: was.open, status: CellState::Done, parent: was.parent });
        proof {
            let goal = old(self)@.finish(cell);
            assert(self@.grid =~~= goal.grid);
            assert(self@.status =~= goal.status);
            assert(self@.parents =~= goal.parents);
            assert(self@ == goal);
            assert(!pending(was));
        }
        true
    }

    /// Whether a worker has reported the goal.
    pub fn goal_reached(&self) -> (b: bool)
        ensures
            b == self@.goal_reached,
    {
        self.goal_reached
    }

    /// Records that the goal has been reported. Doing so again changes
    /// nothing.
    pub fn mark_goal_reached(&mut self)
        requires
            old(self).wf(),
        ensures
            final(self).wf(),
            final(self)@ == old(self)@.mark_goal(),
            final(self).unclaimed() == old(self).unclaimed(),
    {
        self.goal_reached = true;
        proof {
            old(self)@.lemma_mark_goal_inv();
        }
    }

    /// Whether `c` has been discovered.
    pub fn is_visited(&self, c: Coordinate) -> (b: bool)
        requires
            self.wf(),
        ensures
            b == self@.seen(c),
    {
        if self.cells.holds(c) {
            !(self.cells.get(c).status == CellState::Unseen)
        } else {
            false
        }
    }

    /// The mark on `c`, or `None` if `c` lies outside the grid.
    pub fn status_of(&self, c: Coordinate) -> (mark: Option<CellState>)
        requires
            self.wf(),
        ensures
            mark.is_some() == inside(self@.grid, c),
            mark matches Some(m) ==> m == self@.status[c],
    {
        if self.cells.holds(c) {
            Some(self.cells.get(c).status)
        } else {
            None
        }
    }

    /// The number of cells that wait in the frontier.
    pub fn frontier_len(&self) -> (n: usize)
        ensures
            n == self@.frontier.len(),
    {
        self.frontier.len()
    }

    /// The number of cells that are being expanded.
    pub fn in_flight_len(&self) -> (n: usize)
        ensures
            n == self@.in_flight.len(),
    {
        self.in_flight.len()
    }

    /// The cell the search started from.
    pub fn start(&self) -> (c: Coordinate)
        ensures
            c == self@.root,
    {
        self.root
    }

    /// Whether the search is exhausted: the frontier is empty and no cell is
    /// being expanded.
    pub fn is_exhausted(&self) -> (b: bool)
        ensures
            b == self@.exhausted(),
    {
        self.frontier.len() == 0 && self.in_flight.len() == 0
    }

    /// The parent recorded for `c`, if there is one.
    pub fn parent_of(&self, c: Coordinate) -> (p: Option<Coordinate>)
        requires
            self.wf(),
        ensures
            p.is_some() == self@.parents.dom().contains(c),
            p matches Some(x) ==> x == self@.parents[c],
    {
        if self.cells.holds(c) {
            self.cells.get(c).parent
        } else {
            None
        }
    }

    /// Walks the parent links back from `goal` until it meets `start`, and
    /// returns the cells it passed, from `start` to `goal`. Returns `None` if
    /// the walk ends on a cell without a parent before it meets `start`, that
    /// is, if no chain of parent links leads from `start` to `goal`.
    pub fn reconstruct_path(&self, start: Coordinate, goal: Coordinate) -> (out: Option<
        Vec<Coordinate>,
    >)
        requires
            self.wf(),
        ensures
            out matches Some(p) ==> is_chain(self@.parents, p@, start, goal),
            out.is_none() ==> forall|q: Seq<Coordinate>| !is_chain(self@.parents, q, start, goal),
            start == self@.root && self@.seen(goal) ==> out.is_some(),
    {
        proof {
            if start == self@.root && self@.seen(goal) {
                let q = self@.lemma_chain_exists(goal);
                assert(is_chain(self@.parents, q, start, goal));
            }
        }
        let mut back: Vec<Coordinate> = Vec::new();
        back.push(goal);
        let mut cur = goal;
        while !(cur == start)
            invariant
                self.wf(),
                back@.len() > 0,
                back@[0] == goal,
                back@.last() == cur,
                start == self@.root && self@.seen(goal) ==> exists|q: Seq<Coordinate>|
                    is_chain(self@.parents, q, start, goal),
                forall|j: int| 0 <= j < back@.len() - 1 ==> back@[j] != start,
                forall|j: int, k: int|
                    0 <= j && j + 1 == k && k < back@.len() ==> hangs_on(
                        self@.parents,
                        #[trigger] back@[j],
                        #[trigger] back@[k],
                    ),
                forall|q: Seq<Coordinate>| #[trigger]
                    is_chain(self@.parents, q, start, goal) ==> q.len() >= back@.len() && q[q.len()
                        - back@.len()] == cur,
            decreases
                    if self@.parents.dom().contains(cur) {
                        self@.depth[cur] + 1
                    } else {
                        0
                    },
        {
            let ghost steps = back@.len();
            match self.parent_of(cur) {
                None => {
                    proof {
                        assert forall|q: Seq<Coordinate>| !is_chain(
                            self@.parents,
                            q,
                            start,
                            goal,
                        ) by {
                            if is_chain(self@.parents, q, start, goal) {
                                let i = q.len() - steps;
                                assert(q[i] == cur);
                                assert(i > 0);
                                assert(hangs_on(self@.parents, q[i], q[i - 1]));
                            }
                        }
                    }
                    return None;
                },
                Some(p) => {
                    proof {
                        self@.lemma_parent_nearer(cur);
                    }
                    let ghost before = back@;
                    back.push(p);
                    proof {
                        assert forall|j: int, k: int|
                            0 <= j && j + 1 == k && k < back@.len() implies hangs_on(
                            self@.parents,
                            #[trigger] back@[j],
                            #[trigger] back@[k],
                        ) by {
                            if k < before.len() {
                                assert(hangs_on(self@.parents, before[j], before[k]));
                            } else {
                                assert(back@[j] == cur);
                            }
                        }
                        assert forall|q: Seq<Coordinate>| #[trigger]
                            is_chain(self@.parents, q, start, goal) implies q.len() >= back@.len()
                            && q[q.len() - back@.len()] == p by {
                            let i = q.len() - steps;
                            assert(q[i] == cur);
                            assert(i > 0);
                            assert(hangs_on(self@.parents, q[i], q[i - 1]));
                        }
                    }
                    cur = p;
                },
            }
        }
        let mut path: Vec<Coordinate> = Vec::new();
        let mut i: usize = back.len();
        while i > 0
            invariant
                i <= back@.len(),
                path@.len() == back@.len() - i,
                forall|j: int| 0 <= j < path@.len() ==> path@[j] == back@[back@.len() - 1 - j],
            decreases i,
        {
            i -= 1;
            path.push(back[i]);
        }
        proof {
            let n = back@.len() as int;
            assert forall|i: int, j: int| 0 <= i && i + 1 == j && j < path@.len() implies hangs_on(
                self@.parents,
                #[trigger] path@[j],
                #[trigger] path@[i],
            ) && path@[j] != start by {
                assert(path@[j] == back@[n - 1 - j]);
                assert(path@[i] == back@[n - 1 - i]);
                assert(hangs_on(self@.parents, back@[n - 1 - j], back@[n - 1 - i]));
            }
        }
        Some(path)
    }
}

} // verus!
