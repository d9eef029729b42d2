//! The mathematical model: cells, passable steps, paths and shortest paths
//! over a grid given as rows of passability flags.

use vstd::prelude::*;

verus! {

/// A cell of the grid, named by its row and its column.
#[derive(Clone, Copy, Debug, PartialEq, Eq, Hash, Structural)]
pub struct Coordinate {
    pub row: usize,
    pub col: usize,
}

impl Coordinate {
    /// Whether `other` is one unit step away in a cardinal direction.
    pub fn is_adjacent(self, other: Coordinate) -> (b: bool)
        ensures
            b == adjacent(self, other),
    {
        if self.col == other.col {
            (self.row < other.row && other.row - self.row == 1) || (other.row < self.row && self.row
                - other.row == 1)
        } else if self.row == other.row {
            (self.col < other.col && other.col - self.col == 1) || (other.col < self.col && self.col
                - other.col == 1)
        } else {
            false
        }
    }
}

/// Row `r`, column `c` lies inside `g` and is passable.
pub open spec fn open_cell(g: Seq<Seq<bool>>, r: int, c: int) -> bool {
    0 <= r < g.len() && 0 <= c < g[r].len() && g[r][c]
}

/// `c` lies inside `g`.
pub open spec fn inside<T>(g: Seq<Seq<T>>, c: Coordinate) -> bool {
    c.row < g.len() && c.col < g[c.row as int].len()
}

/// `c` lies inside `g` and is passable.
pub open spec fn open_at(g: Seq<Seq<bool>>, c: Coordinate) -> bool {
    open_cell(g, c.row as int, c.col as int)
}

/// `a` and `b` are one unit step apart in one of the four cardinal directions.
pub open spec fn adjacent(a: Coordinate, b: Coordinate) -> bool {
    ||| (a.col == b.col && (a.row + 1 == b.row || b.row + 1 == a.row))
    ||| (a.row == b.row && (a.col + 1 == b.col || b.col + 1 == a.col))
}

/// One move of the search: from a passable cell to an adjacent passable cell.
pub open spec fn step(g: Seq<Seq<bool>>, a: Coordinate, b: Coordinate) -> bool {
    open_at(g, a) && open_at(g, b) && adjacent(a, b)
}

/// `p` is a walk through `g`: it is not empty, starts on a passable cell and
/// moves by passable steps.
pub open spec fn is_path(g: Seq<Seq<bool>>, p: Seq<Coordinate>) -> bool {
    &&& p.len() > 0
    &&& open_at(g, p[0])
    &&& forall|i: int, j: int|
        0 <= i && i + 1 == j && j < p.len() ==> step(g, #[trigger] p[i], #[trigger] p[j])
}

/// `p` is a walk through `g` that leads from `a` to `b`.
pub open spec fn connects(g: Seq<Seq<bool>>, p: Seq<Coordinate>, a: Coordinate, b: Coordinate) -> bool {
    is_path(g, p) && p.first() == a && p.last() == b
}

/// Some walk through `g` leads from `a` to `b`.
pub open spec fn reachable(g: Seq<Seq<bool>>, a: Coordinate, b: Coordinate) -> bool {
    exists|p: Seq<Coordinate>| connects(g, p, a, b)
}

/// `p` leads from `a` to `b`, and no walk from `a` to `b` has fewer cells.
pub open spec fn is_shortest(g: Seq<Seq<bool>>, p: Seq<Coordinate>, a: Coordinate, b: Coordinate) -> bool {
    &&& connects(g, p, a, b)
    &&& forall|q: Seq<Coordinate>| connects(g, q, a, b) ==> p.len() <= q.len()
}

/// The cell at row `r`, column `c`, if it is passable, else nothing.
pub open spec fn pick(g: Seq<Seq<bool>>, r: int, c: int) -> Seq<Coordinate> {
    if open_cell(g, r, c) && r <= usize::MAX && c <= usize::MAX {
        seq![Coordinate { row: r as usize, col: c as usize }]
    } else {
        seq![]
    }
}

/// The passable cells one step away from `c`, in the order down, right, up,
/// left. A step that would leave the grid yields no cell.
pub open spec fn neighbors_of(g: Seq<Seq<bool>>, c: Coordinate) -> Seq<Coordinate> {
    pick(g, c.row + 1, c.col as int) + pick(g, c.row as int, c.col + 1)
        + pick(g, c.row - 1, c.col as int) + pick(g, c.row as int, c.col - 1)
}

/// Every cell of a walk is passable.
pub proof fn lemma_path_cells_open(g: Seq<Seq<bool>>, p: Seq<Coordinate>, i: int)
    requires
        is_path(g, p),
        0 <= i < p.len(),
    ensures
        open_at(g, p[i]),
{
    if i > 0 {
        assert(step(g, p[i - 1], p[i]));
    }
}

/// A walk without its last cell is still a walk.
pub proof fn lemma_path_drop_last(g: Seq<Seq<bool>>, p: Seq<Coordinate>)
    requires
        is_path(g, p),
        p.len() >= 2,
    ensures
        is_path(g, p.drop_last()),
        p.drop_last().first() == p.first(),
        step(g, p.drop_last().last(), p.last()),
{
    let q = p.drop_last();
    assert forall|i: int, j: int| 0 <= i && i + 1 == j && j < q.len() implies step(
        g,
        #[trigger] q[i],
        #[trigger] q[j],
    ) by {
        assert(step(g, p[i], p[j]));
    }
    assert(step(g, p[p.len() - 2], p[p.len() - 1]));
}

/// Within a passable cell's reach, the neighbours are exactly the cells that
/// one step leads to.
pub proof fn lemma_neighbors_are_steps(g: Seq<Seq<bool>>, c: Coordinate, n: Coordinate)
    requires
        open_at(g, c),
    ensures
        neighbors_of(g, c).contains(n) <==> step(g, c, n),
{
    let d = pick(g, c.row + 1, c.col as int);
    let r = pick(g, c.row as int, c.col + 1);
    let u = pick(g, c.row - 1, c.col as int);
    let l = pick(g, c.row as int, c.col - 1);
    let all = neighbors_of(g, c);
    if all.contains(n) {
        let i = choose|i: int| 0 <= i < all.len() && all[i] == n;
        assert(all[i] == n);
    }
    if step(g, c, n) {
        if c.col == n.col && c.row + 1 == n.row {
            assert(d[0] == n);
            assert(all[0] == n);
        } else if c.row == n.row && c.col + 1 == n.col {
            assert(r[0] == n);
            assert(all[d.len() as int] == n);
        } else if c.col == n.col && n.row + 1 == c.row {
            assert(u[0] == n);
            assert(all[(d.len() + r.len()) as int] == n);
        } else {
            assert(l[0] == n);
            assert(all[(d.len() + r.len() + u.len()) as int] == n);
        }
    }
}

} // verus!
