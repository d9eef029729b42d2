//! The search as a transition system over a mathematical state.
//!
//! A search owns a frontier queue, a mark on every cell, a parent for every
//! discovered cell and the list of cells that workers are expanding right now.
//! Cells are claimed from the frontier layer by layer: a cell of the next layer
//! can only be claimed once no cell of the current layer is still being
//! expanded. Each transition keeps [`SearchView::inv`], and the invariant
//! implies that parent chains are shortest paths.

use vstd::prelude::*;
use crate::model::{
    Coordinate, adjacent, inside, is_path, is_shortest, lemma_path_drop_last, open_at, step,
};

verus! {

/// How far the search has come with a cell.
#[derive(Clone, Copy, Debug, PartialEq, Eq, Structural)]
pub enum CellState {
    /// Not discovered.
    Unseen,
    /// Discovered and waiting in the frontier.
    Queued,
    /// Taken from the frontier by a worker that has not finished expanding it.
    Claimed,
    /// Expanded: every passable neighbour has been discovered.
    Done,
}

/// The mathematical state of a search.
pub struct SearchView {
    /// The grid, as rows of passability flags.
    pub grid: Seq<Seq<bool>>,
    /// The cell the search started from.
    pub root: Coordinate,
    /// The mark on every cell inside the grid.
    pub status: Map<Coordinate, CellState>,
    /// For every discovered cell but the root, the cell it was discovered from.
    pub parents: Map<Coordinate, Coordinate>,
    /// For every discovered cell, the number of steps on its parent chain.
    pub depth: Map<Coordinate, nat>,
    /// The discovered cells that wait to be claimed, oldest first.
    pub frontier: Seq<Coordinate>,
    /// The claimed cells whose expansion is not finished.
    pub in_flight: Seq<Coordinate>,
    /// The depth of the cells that are being claimed now.
    pub layer: nat,
    /// How many cells at the head of the frontier belong to the current layer.
    pub layer_left: nat,
    /// Whether a worker has claimed the goal.
    pub goal_reached: bool,
}

/// `p` follows parent links from `b` back to `a`, read forwards, and meets `a`
/// only at its start.
pub open spec fn is_chain(
    parents: Map<Coordinate, Coordinate>,
    p: Seq<Coordinate>,
    a: Coordinate,
    b: Coordinate,
) -> bool {
    &&& p.len() > 0
    &&& p.first() == a
    &&& p.last() == b
    &&& forall|i: int, j: int|
        0 <= i && i + 1 == j && j < p.len() ==> hangs_on(parents, #[trigger] p[j], #[trigger] p[i])
            && p[j] != a
}

/// `parents` records `parent` as the parent of `child`.
pub open spec fn hangs_on(
    parents: Map<Coordinate, Coordinate>,
    child: Coordinate,
    parent: Coordinate,
) -> bool {
    parents.dom().contains(child) && parents[child] == parent
}

impl SearchView {
    /// The state of a search that has just been seeded with `root`.
    pub open spec fn initial(grid: Seq<Seq<bool>>, root: Coordinate) -> SearchView {
        SearchView {
            grid,
            root,
            status: Map::new(
                |c: Coordinate| inside(grid, c),
                |c: Coordinate|
                    if c == root {
                        CellState::Queued
                    } else {
                        CellState::Unseen
                    },
            ),
            parents: Map::empty(),
            depth: Map::empty().insert(root, 0nat),
            frontier: seq![root],
            in_flight: seq![],
            layer: 0,
            layer_left: 1,
            goal_reached: false,
        }
    }

    /// `c` has been discovered.
    pub open spec fn seen(self, c: Coordinate) -> bool {
        inside(self.grid, c) && self.status[c] != CellState::Unseen
    }

    /// The set of discovered cells.
    pub open spec fn visited(self) -> Set<Coordinate> {
        Set::new(|c: Coordinate| self.seen(c))
    }

    /// `c` is being expanded by a worker.
    pub open spec fn claimed(self, c: Coordinate) -> bool {
        inside(self.grid, c) && self.status[c] == CellState::Claimed
    }

    /// `c` has been taken from the frontier at some time.
    pub open spec fn taken(self, c: Coordinate) -> bool {
        inside(self.grid, c) && (self.status[c] == CellState::Claimed || self.status[c]
            == CellState::Done)
    }

    /// Nothing waits in the frontier and no expansion is under way: no cell
    /// will ever be discovered again.
    pub open spec fn exhausted(self) -> bool {
        self.frontier.len() == 0 && self.in_flight.len() == 0
    }

    /// A cell can be claimed: the frontier is not empty, and its head belongs
    /// to the current layer or the current layer is fully expanded.
    pub open spec fn can_claim(self) -> bool {
        self.frontier.len() > 0 && (self.layer_left > 0 || self.in_flight.len() == 0)
    }

    /// The state once the current layer is closed and the next one opened.
    pub open spec fn advance(self) -> SearchView {
        SearchView { layer: self.layer + 1, layer_left: self.frontier.len(), ..self }
    }

    /// The state once the head of the frontier has been handed to a worker.
    pub open spec fn take(self) -> SearchView {
        SearchView {
            status: self.status.insert(self.frontier[0], CellState::Claimed),
            frontier: self.frontier.drop_first(),
            in_flight: self.in_flight.push(self.frontier[0]),
            layer_left: (self.layer_left - 1) as nat,
            ..self
        }
    }

    /// The state after a claim, which opens the next layer first if the
    /// current one has no cell left.
    pub open spec fn claim(self) -> SearchView {
        if self.layer_left == 0 {
            self.advance().take()
        } else {
            self.take()
        }
    }

    /// `cell` can be admitted as a discovery of `parent`: `parent` is being
    /// expanded, and `cell` is a passable neighbour of it that nobody has
    /// discovered yet.
    pub open spec fn can_admit(self, cell: Coordinate, parent: Coordinate) -> bool {
        &&& self.claimed(parent)
        &&& adjacent(parent, cell)
        &&& open_at(self.grid, cell)
        &&& self.status[cell] == CellState::Unseen
    }

    /// The state once `cell` has been admitted as a discovery of `parent`.
    pub open spec fn admit_cell(self, cell: Coordinate, parent: Coordinate) -> SearchView {
        SearchView {
            status: self.status.insert(cell, CellState::Queued),
            parents: self.parents.insert(cell, parent),
            depth: self.depth.insert(cell, self.layer + 1),
            frontier: self.frontier.push(cell),
            ..self
        }
    }

    /// The expansion of `cell` can be closed: it is being expanded, and every
    /// cell one step away has been discovered.
    pub open spec fn can_finish(self, cell: Coordinate) -> bool {
        &&& self.claimed(cell)
        &&& forall|n: Coordinate| #[trigger] step(self.grid, cell, n) ==> self.seen(n)
    }

    /// The state once the expansion of `cell` has been closed.
    pub open spec fn finish(self, cell: Coordinate) -> SearchView {
        SearchView {
            status: self.status.insert(cell, CellState::Done),
            in_flight: self.in_flight.remove(self.in_flight.index_of(cell)),
            ..self
        }
    }

    /// The state once the goal has been reported.
    pub open spec fn mark_goal(self) -> SearchView {
        SearchView { goal_reached: true, ..self }
    }

    /// The state after an attempt to admit `cell` as a discovery of `parent`.
    pub open spec fn try_admit(self, cell: Coordinate, parent: Coordinate) -> SearchView {
        if self.can_admit(cell, parent) {
            self.admit_cell(cell, parent)
        } else {
            self
        }
    }

    /// The state after attempts to admit each of `cells`, in order, as a
    /// discovery of `parent`.
    pub open spec fn admit_all(self, cells: Seq<Coordinate>, parent: Coordinate) -> SearchView
        decreases cells.len(),
    {
        if cells.len() == 0 {
            self
        } else {
            self.admit_all(cells.drop_last(), parent).try_admit(cells.last(), parent)
        }
    }

    /// The state after an attempt to close the expansion of `cell`.
    pub open spec fn try_finish(self, cell: Coordinate) -> SearchView {
        if self.can_finish(cell) {
            self.finish(cell)
        } else {
            self
        }
    }

    /// The state after a worker has handed in `cells` as the neighbours of
    /// `cell`: each is admitted if it can be, then the expansion is closed if
    /// it can be.
    pub open spec fn expand(self, cell: Coordinate, cells: Seq<Coordinate>) -> SearchView {
        self.admit_all(cells, cell).try_finish(cell)
    }

    /// `c` hangs on its parent: the parent has been claimed, lies one step
    /// away and is one step nearer to the root.
    pub open spec fn linked(self, c: Coordinate) -> bool {
        &&& self.parents.dom().contains(c)
        &&& self.taken(self.parents[c])
        &&& adjacent(self.parents[c], c)
        &&& self.depth[c] == self.depth[self.parents[c]] + 1
    }

    /// Every cell inside the grid has a mark, and no other.
    pub open spec fn marks_ok(self) -> bool {
        forall|c: Coordinate| #[trigger] self.status.dom().contains(c) <==> inside(self.grid, c)
    }

    /// The discovered cells form a tree under the root: each is passable and,
    /// but for the root, linked to its parent.
    pub open spec fn tree_ok(self) -> bool {
        &&& self.seen(self.root)
        &&& self.depth[self.root] == 0
        &&& !self.parents.dom().contains(self.root)
        &&& forall|c: Coordinate| #[trigger]
            self.seen(c) ==> open_at(self.grid, c) && self.depth[c] <= self.layer + 1 && (c
                != self.root ==> self.linked(c))
        &&& forall|c: Coordinate| #[trigger]
            self.parents.dom().contains(c) ==> self.seen(c) && c != self.root
    }

    /// The frontier holds each queued cell once: first those of the current
    /// layer, then those of the next.
    pub open spec fn frontier_ok(self) -> bool {
        &&& self.frontier.no_duplicates()
        &&& self.layer_left <= self.frontier.len()
        &&& forall|i: int|
            0 <= i < self.frontier.len() ==> inside(self.grid, #[trigger] self.frontier[i])
                && self.status[self.frontier[i]] == CellState::Queued
                && self.depth[self.frontier[i]] == if i < self.layer_left {
                self.layer
            } else {
                self.layer + 1
            }
        &&& forall|c: Coordinate|
            inside(self.grid, c) && #[trigger] self.status[c] == CellState::Queued
                ==> self.frontier.contains(c)
    }

    /// The cells in flight are the claimed cells, each once, all of the
    /// current layer.
    pub open spec fn in_flight_ok(self) -> bool {
        &&& self.in_flight.no_duplicates()
        &&& forall|i: int|
            0 <= i < self.in_flight.len() ==> self.claimed(#[trigger] self.in_flight[i])
                && self.depth[self.in_flight[i]] == self.layer
        &&& forall|c: Coordinate|
            inside(self.grid, c) && #[trigger] self.status[c] == CellState::Claimed
                ==> self.in_flight.contains(c)
    }

    /// Every cell one step away from an expanded cell has been discovered.
    pub open spec fn closed_ok(self) -> bool {
        forall|c: Coordinate, n: Coordinate|
            inside(self.grid, c) && self.status[c] == CellState::Done && #[trigger] step(
                self.grid,
                c,
                n,
            ) ==> self.seen(n)
    }

    /// Every cell within `layer` steps of the root has been discovered.
    pub open spec fn complete_ok(self) -> bool {
        forall|p: Seq<Coordinate>| #[trigger]
            is_path(self.grid, p) && p.first() == self.root && p.len() <= self.layer + 1
                ==> self.seen(p.last())
    }

    /// No walk from the root to a discovered cell is shorter than the cell's
    /// parent chain.
    pub open spec fn minimal_ok(self) -> bool {
        forall|p: Seq<Coordinate>| #[trigger]
            is_path(self.grid, p) && p.first() == self.root && self.seen(p.last())
                ==> self.depth[p.last()] + 1 <= p.len()
    }

    /// The invariant of the search.
    pub open spec fn inv(self) -> bool {
        &&& self.marks_ok()
        &&& self.tree_ok()
        &&& self.frontier_ok()
        &&& self.in_flight_ok()
        &&& self.closed_ok()
        &&& self.complete_ok()
        &&& self.minimal_ok()
    }

    /// A freshly seeded search satisfies the invariant.
    pub proof fn lemma_initial_inv(grid: Seq<Seq<bool>>, root: Coordinate)
        requires
            open_at(grid, root),
        ensures
            Self::initial(grid, root).inv(),
    {
        let v = Self::initial(grid, root);
        assert(v.seen(root));
        assert(v.frontier[0] == root);
        assert(v.frontier_ok());
        assert(v.in_flight_ok());
        assert(v.complete_ok());
    }

    /// Opening the next layer keeps the invariant, once the current layer is
    /// fully expanded.
    pub proof fn lemma_advance_inv(self)
        requires
            self.inv(),
            self.layer_left == 0,
            self.in_flight.len() == 0,
        ensures
            self.advance().inv(),
    {
        let w = self.advance();
        assert forall|c: Coordinate| #[trigger] w.seen(c) implies open_at(w.grid, c) && w.depth[c]
            <= w.layer + 1 && (c != w.root ==> w.linked(c)) by {
            assert(self.seen(c));
            if c != self.root {
                assert(self.linked(c));
            }
        }
        assert(w.seen(w.root)) by {
            assert(self.seen(self.root));
        }
        assert forall|c: Coordinate| #[trigger] w.parents.dom().contains(c) implies w.seen(c) && c
            != w.root by {
            assert(self.seen(c));
        }
        assert(w.tree_ok());
        assert(w.frontier_ok());
        assert(w.in_flight_ok());
        assert forall|c: Coordinate, n: Coordinate|
            inside(w.grid, c) && w.status[c] == CellState::Done && #[trigger] step(
                w.grid,
                c,
                n,
            ) implies w.seen(n) by {
            assert(self.seen(n));
        }
        assert forall|p: Seq<Coordinate>| #[trigger]
            is_path(w.grid, p) && p.first() == w.root && p.len() <= w.layer + 1 implies w.seen(
            p.last(),
        ) by {
            if p.len() <= self.layer + 1 {
                assert(self.seen(p.last()));
            } else {
                lemma_path_drop_last(self.grid, p);
                let q = p.drop_last();
                let u = q.last();
                assert(is_path(self.grid, q));
                assert(self.seen(u));
                assert(self.depth[u] + 1 <= q.len());
                if self.status[u] == CellState::Queued {
                    assert(self.frontier.contains(u));
                    let i = choose|i: int| 0 <= i < self.frontier.len() && self.frontier[i] == u;
                    assert(self.depth[self.frontier[i]] == self.layer + 1);
                } else if self.status[u] == CellState::Claimed {
                    assert(self.in_flight.contains(u));
                }
                assert(self.status[u] == CellState::Done);
                assert(step(self.grid, u, p.last()));
                assert(self.seen(p.last()));
            }
        }
        assert forall|p: Seq<Coordinate>| #[trigger]
            is_path(w.grid, p) && p.first() == w.root && w.seen(p.last()) implies w.depth[p.last()]
            + 1 <= p.len() by {
            assert(self.seen(p.last()));
        }
    }

    /// Handing the head of the frontier to a worker keeps the invariant.
    pub proof fn lemma_take_inv(self)
        requires
            self.inv(),
            self.layer_left > 0,
        ensures
            self.take().inv(),
    {
        let w = self.take();
        let c = self.frontier[0];
        assert(inside(self.grid, c) && self.status[c] == CellState::Queued && self.depth[c]
            == self.layer);
        assert forall|x: Coordinate| self.seen(x) == #[trigger] w.seen(x) by {}
        assert forall|x: Coordinate| self.taken(x) implies #[trigger] w.taken(x) by {}
        assert forall|x: Coordinate| #[trigger] w.seen(x) implies open_at(w.grid, x) && w.depth[x]
            <= w.layer + 1 && (x != w.root ==> w.linked(x)) by {
            assert(self.seen(x));
            if x != self.root {
                assert(self.linked(x));
                assert(w.taken(self.parents[x]));
            }
        }
        assert(w.seen(w.root)) by {
            assert(self.seen(self.root));
        }
        assert forall|x: Coordinate| #[trigger] w.parents.dom().contains(x) implies w.seen(x) && x
            != w.root by {
            assert(self.seen(x));
        }
        assert(w.tree_ok());
        assert forall|i: int| 0 <= i < w.frontier.len() implies inside(
            w.grid,
            #[trigger] w.frontier[i],
        ) && w.status[w.frontier[i]] == CellState::Queued && w.depth[w.frontier[i]] == if i
            < w.layer_left {
            w.layer
        } else {
            w.layer + 1
        } by {
            assert(w.frontier[i] == self.frontier[i + 1]);
            assert(self.frontier[i + 1] != self.frontier[0]);
        }
        assert forall|x: Coordinate|
            inside(w.grid, x) && #[trigger] w.status[x] == CellState::Queued implies w.frontier.contains(
            x,
        ) by {
            assert(self.status[x] == CellState::Queued);
            assert(self.frontier.contains(x));
            let i = choose|i: int| 0 <= i < self.frontier.len() && self.frontier[i] == x;
            assert(i > 0);
            assert(w.frontier[i - 1] == x);
        }
        assert(w.frontier.no_duplicates()) by {
            assert forall|i: int, j: int|
                0 <= i < w.frontier.len() && 0 <= j < w.frontier.len() && i != j implies w.frontier[i]
                != w.frontier[j] by {
                assert(w.frontier[i] == self.frontier[i + 1]);
                assert(w.frontier[j] == self.frontier[j + 1]);
            }
        }
        assert(w.frontier_ok());
        assert forall|i: int| 0 <= i < w.in_flight.len() implies w.claimed(
            #[trigger] w.in_flight[i],
        ) && w.depth[w.in_flight[i]] == w.layer by {
            if i < self.in_flight.len() {
                assert(w.in_flight[i] == self.in_flight[i]);
                assert(self.claimed(self.in_flight[i]));
            }
        }
        assert forall|x: Coordinate|
            inside(w.grid, x) && #[trigger] w.status[x] == CellState::Claimed implies w.in_flight.contains(
            x,
        ) by {
            if x == c {
                assert(w.in_flight[self.in_flight.len() as int] == c);
            } else {
                assert(self.status[x] == CellState::Claimed);
                assert(self.in_flight.contains(x));
                let i = choose|i: int| 0 <= i < self.in_flight.len() && self.in_flight[i] == x;
                assert(w.in_flight[i] == x);
            }
        }
        assert(w.in_flight.no_duplicates()) by {
            assert forall|i: int, j: int|
                0 <= i < w.in_flight.len() && 0 <= j < w.in_flight.len() && i != j implies w.in_flight[i]
                != w.in_flight[j] by {
                if i < self.in_flight.len() {
                    assert(self.claimed(self.in_flight[i]));
                }
                if j < self.in_flight.len() {
                    assert(self.claimed(self.in_flight[j]));
                }
            }
        }
        assert(w.in_flight_ok());
        assert forall|x: Coordinate, n: Coordinate|
            inside(w.grid, x) && w.status[x] == CellState::Done && #[trigger] step(
                w.grid,
                x,
                n,
            ) implies w.seen(n) by {
            assert(self.status[x] == CellState::Done);
            assert(self.seen(n));
        }
        assert forall|p: Seq<Coordinate>| #[trigger]
            is_path(w.grid, p) && p.first() == w.root && p.len() <= w.layer + 1 implies w.seen(
            p.last(),
        ) by {
            assert(self.seen(p.last()));
        }
        assert forall|p: Seq<Coordinate>| #[trigger]
            is_path(w.grid, p) && p.first() == w.root && w.seen(p.last()) implies w.depth[p.last()]
            + 1 <= p.len() by {
            assert(self.seen(p.last()));
        }
    }

    /// An admission keeps the invariant.
    pub proof fn lemma_admit_inv(self, cell: Coordinate, parent: Coordinate)
        requires
            self.inv(),
            self.can_admit(cell, parent),
        ensures
            self.admit_cell(cell, parent).inv(),
    {
        let w = self.admit_cell(cell, parent);
        assert(!self.seen(cell));
        assert(self.in_flight.contains(parent));
        let k = choose|k: int| 0 <= k < self.in_flight.len() && self.in_flight[k] == parent;
        assert(self.depth[self.in_flight[k]] == self.layer);
        assert(self.seen(self.root));
        assert forall|x: Coordinate| self.seen(x) implies #[trigger] w.seen(x) by {}
        assert forall|x: Coordinate| self.taken(x) implies #[trigger] w.taken(x) by {}
        assert forall|x: Coordinate| #[trigger] w.seen(x) implies open_at(w.grid, x) && w.depth[x]
            <= w.layer + 1 && (x != w.root ==> w.linked(x)) by {
            if x == cell {
                assert(w.taken(parent));
                assert(w.parents[cell] == parent);
                assert(parent != cell);
                assert(w.depth[parent] == self.depth[parent]);
            } else {
                assert(self.seen(x));
                if x != self.root {
                    assert(self.linked(x));
                    assert(self.taken(self.parents[x]));
                    assert(w.taken(self.parents[x]));
                    assert(self.parents[x] != cell);
                }
            }
        }
        assert forall|x: Coordinate| #[trigger] w.parents.dom().contains(x) implies w.seen(x) && x
            != w.root by {
            if x != cell {
                assert(self.parents.dom().contains(x));
                assert(self.seen(x));
            }
        }
        assert(w.tree_ok());
        assert forall|i: int| 0 <= i < w.frontier.len() implies inside(
            w.grid,
            #[trigger] w.frontier[i],
        ) && w.status[w.frontier[i]] == CellState::Queued && w.depth[w.frontier[i]] == if i
            < w.layer_left {
            w.layer
        } else {
            w.layer + 1
        } by {
            if i < self.frontier.len() {
                assert(w.frontier[i] == self.frontier[i]);
                assert(self.status[self.frontier[i]] == CellState::Queued);
            }
        }
        assert forall|x: Coordinate|
            inside(w.grid, x) && #[trigger] w.status[x] == CellState::Queued implies w.frontier.contains(
            x,
        ) by {
            if x == cell {
                assert(w.frontier[self.frontier.len() as int] == cell);
            } else {
                assert(self.status[x] == CellState::Queued);
                assert(self.frontier.contains(x));
                let i = choose|i: int| 0 <= i < self.frontier.len() && self.frontier[i] == x;
                assert(w.frontier[i] == x);
            }
        }
        assert(w.frontier.no_duplicates()) by {
            assert forall|i: int, j: int|
                0 <= i < w.frontier.len() && 0 <= j < w.frontier.len() && i != j implies w.frontier[i]
                != w.frontier[j] by {
                if i < self.frontier.len() {
                    assert(self.status[self.frontier[i]] == CellState::Queued);
                }
                if j < self.frontier.len() {
                    assert(self.status[self.frontier[j]] == CellState::Queued);
                }
            }
        }
        assert(w.frontier_ok());
        assert forall|i: int| 0 <= i < w.in_flight.len() implies w.claimed(
            #[trigger] w.in_flight[i],
        ) && w.depth[w.in_flight[i]] == w.layer by {
            assert(self.claimed(self.in_flight[i]));
        }
        assert forall|x: Coordinate|
            inside(w.grid, x) && #[trigger] w.status[x] == CellState::Claimed implies w.in_flight.contains(
            x,
        ) by {
            assert(self.status[x] == CellState::Claimed);
        }
        assert(w.in_flight_ok());
        assert forall|x: Coordinate, n: Coordinate|
            inside(w.grid, x) && w.status[x] == CellState::Done && #[trigger] step(
                w.grid,
                x,
                n,
            ) implies w.seen(n) by {
            assert(self.status[x] == CellState::Done);
            assert(self.seen(n));
        }
        assert forall|p: Seq<Coordinate>| #[trigger]
            is_path(w.grid, p) && p.first() == w.root && p.len() <= w.layer + 1 implies w.seen(
            p.last(),
        ) by {
            assert(self.seen(p.last()));
        }
        assert forall|p: Seq<Coordinate>| #[trigger]
            is_path(w.grid, p) && p.first() == w.root && w.seen(p.last()) implies w.depth[p.last()]
            + 1 <= p.len() by {
            if p.last() == cell {
                if p.len() <= self.layer + 1 {
                    assert(self.seen(p.last()));
                }
            } else {
                assert(self.seen(p.last()));
            }
        }
    }

    /// Closing an expansion keeps the invariant.
    pub proof fn lemma_finish_inv(self, cell: Coordinate)
        requires
            self.inv(),
            self.can_finish(cell),
        ensures
            self.finish(cell).inv(),
            self.in_flight.contains(cell),
            self.finish(cell).in_flight.len() + 1 == self.in_flight.len(),
    {
        let w = self.finish(cell);
        assert(self.in_flight.contains(cell));
        let k = self.in_flight.index_of(cell);
        assert(0 <= k < self.in_flight.len() && self.in_flight[k] == cell);
        assert forall|x: Coordinate| self.seen(x) == #[trigger] w.seen(x) by {}
        assert forall|x: Coordinate| self.taken(x) implies #[trigger] w.taken(x) by {}
        assert forall|x: Coordinate| #[trigger] w.seen(x) implies open_at(w.grid, x) && w.depth[x]
            <= w.layer + 1 && (x != w.root ==> w.linked(x)) by {
            assert(self.seen(x));
            if x != self.root {
                assert(self.linked(x));
                assert(w.taken(self.parents[x]));
            }
        }
        assert(w.seen(w.root)) by {
            assert(self.seen(self.root));
        }
        assert forall|x: Coordinate| #[trigger] w.parents.dom().contains(x) implies w.seen(x) && x
            != w.root by {
            assert(self.seen(x));
        }
        assert(w.tree_ok());
        assert forall|i: int| 0 <= i < w.frontier.len() implies inside(
            w.grid,
            #[trigger] w.frontier[i],
        ) && w.status[w.frontier[i]] == CellState::Queued && w.depth[w.frontier[i]] == if i
            < w.layer_left {
            w.layer
        } else {
            w.layer + 1
        } by {
            assert(self.status[self.frontier[i]] == CellState::Queued);
        }
        assert forall|x: Coordinate|
            inside(w.grid, x) && #[trigger] w.status[x] == CellState::Queued implies w.frontier.contains(
            x,
        ) by {
            assert(self.status[x] == CellState::Queued);
        }
        assert(w.frontier_ok());
        assert forall|i: int| 0 <= i < w.in_flight.len() implies w.claimed(
            #[trigger] w.in_flight[i],
        ) && w.depth[w.in_flight[i]] == w.layer && w.in_flight[i] != cell by {
            if i < k {
                assert(w.in_flight[i] == self.in_flight[i]);
                assert(self.claimed(self.in_flight[i]));
            } else {
                assert(w.in_flight[i] == self.in_flight[i + 1]);
                assert(self.claimed(self.in_flight[i + 1]));
            }
        }
        assert forall|x: Coordinate|
            inside(w.grid, x) && #[trigger] w.status[x] == CellState::Claimed implies w.in_flight.contains(
            x,
        ) by {
            assert(self.status[x] == CellState::Claimed);
            assert(self.in_flight.contains(x));
            let i = choose|i: int| 0 <= i < self.in_flight.len() && self.in_flight[i] == x;
            if i < k {
                assert(w.in_flight[i] == x);
            } else {
                assert(w.in_flight[i - 1] == x);
            }
        }
        assert(w.in_flight.no_duplicates()) by {
            assert forall|i: int, j: int|
                0 <= i < w.in_flight.len() && 0 <= j < w.in_flight.len() && i != j implies w.in_flight[i]
                != w.in_flight[j] by {
                let a = if i < k { i } else { i + 1 };
                let b = if j < k { j } else { j + 1 };
                assert(w.in_flight[i] == self.in_flight[a]);
                assert(w.in_flight[j] == self.in_flight[b]);
            }
        }
        assert(w.in_flight_ok());
        assert forall|x: Coordinate, n: Coordinate|
            inside(w.grid, x) && w.status[x] == CellState::Done && #[trigger] step(
                w.grid,
                x,
                n,
            ) implies w.seen(n) by {
            if x != cell {
                assert(self.status[x] == CellState::Done);
            }
            assert(self.seen(n));
        }
        assert forall|p: Seq<Coordinate>| #[trigger]
            is_path(w.grid, p) && p.first() == w.root && p.len() <= w.layer + 1 implies w.seen(
            p.last(),
        ) by {
            assert(self.seen(p.last()));
        }
        assert forall|p: Seq<Coordinate>| #[trigger]
            is_path(w.grid, p) && p.first() == w.root && w.seen(p.last()) implies w.depth[p.last()]
            + 1 <= p.len() by {
            assert(self.seen(p.last()));
        }
    }

    /// Reporting the goal keeps the invariant.
    pub proof fn lemma_mark_goal_inv(self)
        requires
            self.inv(),
        ensures
            self.mark_goal().inv(),
    {
        let w = self.mark_goal();
        assert forall|x: Coordinate| self.seen(x) == #[trigger] w.seen(x) by {}
        assert forall|x: Coordinate| self.linked(x) == #[trigger] w.linked(x) by {}
        assert forall|x: Coordinate| #[trigger] w.seen(x) implies open_at(w.grid, x) && w.depth[x]
            <= w.layer + 1 && (x != w.root ==> w.linked(x)) by {
            assert(self.seen(x));
        }
        assert(w.seen(w.root)) by {
            assert(self.seen(self.root));
        }
        assert forall|x: Coordinate| #[trigger] w.parents.dom().contains(x) implies w.seen(x) && x
            != w.root by {
            assert(self.seen(x));
        }
        assert(w.tree_ok());
        assert forall|i: int| 0 <= i < w.in_flight.len() implies w.claimed(
            #[trigger] w.in_flight[i],
        ) && w.depth[w.in_flight[i]] == w.layer by {
            assert(self.claimed(self.in_flight[i]));
        }
        assert(w.in_flight_ok());
        assert forall|x: Coordinate, n: Coordinate|
            inside(w.grid, x) && w.status[x] == CellState::Done && #[trigger] step(
                w.grid,
                x,
                n,
            ) implies w.seen(n) by {
            assert(self.seen(n));
        }
        assert forall|p: Seq<Coordinate>| #[trigger]
            is_path(w.grid, p) && p.first() == w.root && p.len() <= w.layer + 1 implies w.seen(
            p.last(),
        ) by {
            assert(self.seen(p.last()));
        }
        assert forall|p: Seq<Coordinate>| #[trigger]
            is_path(w.grid, p) && p.first() == w.root && w.seen(p.last()) implies w.depth[p.last()]
            + 1 <= p.len() by {
            assert(self.seen(p.last()));
        }
    }

    /// Attempts to admit `cells` for a parent under expansion keep the
    /// invariant, discover every cell among them that is one step away from
    /// the parent, and touch nothing that has been claimed.
    pub proof fn lemma_admit_all(self, cells: Seq<Coordinate>, parent: Coordinate)
        requires
            self.inv(),
            self.claimed(parent),
        ensures
            self.admit_all(cells, parent).inv(),
            self.admit_all(cells, parent).claimed(parent),
            self.admit_all(cells, parent).in_flight == self.in_flight,
            self.admit_all(cells, parent).grid == self.grid,
            self.admit_all(cells, parent).root == self.root,
            self.admit_all(cells, parent).goal_reached == self.goal_reached,
            forall|x: Coordinate| #[trigger]
                self.admit_all(cells, parent).taken(x) == self.taken(x),
            forall|x: Coordinate| self.seen(x) ==> #[trigger] self.admit_all(cells, parent).seen(x),
            forall|i: int|
                0 <= i < cells.len() && step(self.grid, parent, #[trigger] cells[i])
                    ==> self.admit_all(cells, parent).seen(cells[i]),
        decreases cells.len(),
    {
        if cells.len() > 0 {
            let head = cells.drop_last();
            let n = cells.last();
            let u = self.admit_all(head, parent);
            let w = u.try_admit(n, parent);
            self.lemma_admit_all(head, parent);
            if u.can_admit(n, parent) {
                u.lemma_admit_inv(n, parent);
            }
            assert forall|x: Coordinate| #[trigger] w.taken(x) == self.taken(x) by {
                assert(u.taken(x) == self.taken(x));
            }
            assert forall|x: Coordinate| self.seen(x) implies #[trigger] w.seen(x) by {
                assert(u.seen(x));
            }
            assert forall|i: int|
                0 <= i < cells.len() && step(self.grid, parent, #[trigger] cells[i]) implies w.seen(
                cells[i],
            ) by {
                if i < head.len() {
                    assert(head[i] == cells[i]);
                    assert(u.seen(head[i]));
                }
            }
        }
    }

    /// Handing in all neighbours of a cell under expansion closes the
    /// expansion: the cell leaves the cells in flight, the invariant holds,
    /// and no cell is claimed that was not before.
    pub proof fn lemma_expand(self, cell: Coordinate, cells: Seq<Coordinate>)
        requires
            self.inv(),
            self.claimed(cell),
            forall|n: Coordinate| #[trigger] step(self.grid, cell, n) ==> cells.contains(n),
        ensures
            self.admit_all(cells, cell).can_finish(cell),
            self.expand(cell, cells).inv(),
            self.in_flight.contains(cell),
            self.expand(cell, cells).in_flight == self.in_flight.remove(
                self.in_flight.index_of(cell),
            ),
            self.expand(cell, cells).grid == self.grid,
            self.expand(cell, cells).root == self.root,
            self.expand(cell, cells).goal_reached == self.goal_reached,
            forall|x: Coordinate| #[trigger] self.expand(cell, cells).taken(x) == self.taken(x),
    {
        let u = self.admit_all(cells, cell);
        self.lemma_admit_all(cells, cell);
        assert forall|n: Coordinate| #[trigger] step(u.grid, cell, n) implies u.seen(n) by {
            assert(cells.contains(n));
            let i = choose|i: int| 0 <= i < cells.len() && cells[i] == n;
            assert(step(self.grid, cell, cells[i]));
        }
        u.lemma_finish_inv(cell);
        assert forall|x: Coordinate| #[trigger] u.finish(cell).taken(x) == self.taken(x) by {
            assert(u.taken(x) == self.taken(x));
        }
    }

    /// A parent lies nearer to the root than its child.
    pub proof fn lemma_parent_nearer(self, c: Coordinate)
        requires
            self.inv(),
            self.parents.dom().contains(c),
        ensures
            self.depth[self.parents[c]] + 1 == self.depth[c],
            self.seen(self.parents[c]),
    {
        assert(self.seen(c));
        assert(self.linked(c));
    }

    /// Every discovered cell hangs on a chain of parent links from the root.
    pub proof fn lemma_chain_exists(self, c: Coordinate) -> (p: Seq<Coordinate>)
        requires
            self.inv(),
            self.seen(c),
        ensures
            is_chain(self.parents, p, self.root, c),
        decreases self.depth[c],
    {
        if c == self.root {
            let p = seq![c];
            assert(p.len() == 1 && p[0] == c);
            p
        } else {
            assert(self.linked(c));
            assert(self.seen(self.parents[c]));
            let q = self.lemma_chain_exists(self.parents[c]);
            let p = q.push(c);
            assert(p.first() == q[0]);
            assert(p.last() == c);
            assert forall|i: int, j: int| 0 <= i && i + 1 == j && j < p.len() implies hangs_on(
                self.parents,
                #[trigger] p[j],
                #[trigger] p[i],
            ) && p[j] != self.root by {
                if j < q.len() {
                    assert(hangs_on(self.parents, q[j], q[i]));
                } else {
                    assert(p[j] == c);
                    assert(p[i] == q.last());
                }
            }
            p
        }
    }

    /// Along a parent chain from the root, the `i`-th cell has been discovered
    /// at depth `i`.
    pub proof fn lemma_chain_depth(self, p: Seq<Coordinate>, c: Coordinate, i: int)
        requires
            self.inv(),
            is_chain(self.parents, p, self.root, c),
            0 <= i < p.len(),
        ensures
            self.seen(p[i]),
            self.depth[p[i]] == i,
        decreases i,
    {
        if i > 0 {
            self.lemma_chain_depth(p, c, i - 1);
            assert(hangs_on(self.parents, p[i], p[i - 1]));
            assert(self.seen(p[i]));
            assert(self.linked(p[i]));
        }
    }

    /// A parent chain from the root to `c` is a shortest walk from the root to
    /// `c`, and visits no cell twice.
    pub proof fn lemma_chain_shortest(self, p: Seq<Coordinate>, c: Coordinate)
        requires
            self.inv(),
            is_chain(self.parents, p, self.root, c),
        ensures
            is_shortest(self.grid, p, self.root, c),
            p.no_duplicates(),
            self.seen(c),
            p.len() == self.depth[c] + 1,
    {
        assert forall|i: int| 0 <= i < p.len() implies self.seen(#[trigger] p[i]) && self.depth[p[i]]
            == i by {
            self.lemma_chain_depth(p, c, i);
        }
        assert(self.seen(p[0]));
        assert forall|i: int, j: int| 0 <= i && i + 1 == j && j < p.len() implies step(
            self.grid,
            #[trigger] p[i],
            #[trigger] p[j],
        ) by {
            assert(self.seen(p[i]));
            assert(self.seen(p[j]));
            assert(hangs_on(self.parents, p[j], p[i]));
            assert(self.linked(p[j]));
        }
        assert(is_path(self.grid, p));
        assert(self.seen(p[p.len() - 1]));
        assert forall|q: Seq<Coordinate>|
            is_path(self.grid, q) && q.first() == self.root && q.last() == c implies p.len()
            <= q.len() by {
            assert(self.depth[q.last()] + 1 <= q.len());
        }
    }

    /// Once the search is exhausted, every cell that a walk from the root
    /// leads to has been expanded.
    pub proof fn lemma_exhausted_reach(self, p: Seq<Coordinate>)
        requires
            self.inv(),
            self.exhausted(),
            is_path(self.grid, p),
            p.first() == self.root,
        ensures
            inside(self.grid, p.last()),
            self.status[p.last()] == CellState::Done,
        decreases p.len(),
    {
        let c = p.last();
        if p.len() == 1 {
            assert(self.seen(self.root));
        } else {
            lemma_path_drop_last(self.grid, p);
            self.lemma_exhausted_reach(p.drop_last());
            assert(step(self.grid, p.drop_last().last(), c));
            assert(self.status[p.drop_last().last()] == CellState::Done);
            assert(self.seen(c));
        }
        if self.status[c] == CellState::Queued {
            assert(self.frontier.contains(c));
        } else if self.status[c] == CellState::Claimed {
            assert(self.in_flight.contains(c));
        }
    }
}

} // verus!
