//! The grid that is searched: a read-only rectangle of passable and blocked
//! cells.

use vstd::prelude::*;
use crate::model::{Coordinate, neighbors_of, open_at, pick};
use crate::table::{Table, even_rows, rows_of};

verus! {

/// The character that marks a blocked cell in a textual maze.
pub const WALL: char = '#';

/// The passability flags of a textual maze: a cell is passable unless it
/// holds [`WALL`].
pub open spec fn flags_of(maze: Seq<Vec<char>>) -> Seq<Seq<bool>> {
    Seq::new(maze.len(), |r: int| Seq::new(maze[r]@.len(), |c: int| maze[r]@[c] != WALL))
}

/// A rectangular grid of cells, each passable or blocked. Its view is the
/// sequence of its rows, `true` for a passable cell.
pub struct Grid {
    cells: Table<bool>,
}

impl Grid {
    /// The grid as rows of passability flags.
    pub closed spec fn view(&self) -> Seq<Seq<bool>> {
        self.cells@
    }

    /// The number of columns.
    pub closed spec fn width(&self) -> nat {
        self.cells.width()
    }

    /// The stored table is well formed.
    pub closed spec fn stored(&self) -> bool {
        self.cells.wf() && self.cells.height() == self.cells@.len()
    }

    /// The grid is well formed: every row has `width()` cells.
    pub open spec fn wf(&self) -> bool {
        &&& self.stored()
        &&& self@.len() <= usize::MAX
        &&& self.width() <= usize::MAX
        &&& forall|r: int| 0 <= r < self@.len() ==> (#[trigger] self@[r]).len() == self.width()
    }

    /// A well-formed grid has no more cells than the machine can index.
    pub proof fn lemma_area(&self)
        requires
            self.wf(),
        ensures
            self@.len() * self.width() <= usize::MAX,
    {
        self.cells.lemma_area();
    }

    /// The grid with the given rows of passability flags, or `None` if the
    /// rows differ in length.
    pub fn from_rows(rows: &Vec<Vec<bool>>) -> (out: Option<Grid>)
        ensures
            out.is_some() <==> even_rows(rows@),
            out matches Some(g) ==> g.wf() && g@ == rows_of(rows@),
    {
        match Table::from_rows(rows) {
            Some(cells) => {
                proof {
                    cells.lemma_size();
                }
                Some(Grid { cells })
            },
            None => None,
        }
    }

    /// The grid that a textual maze describes, or `None` if its rows differ
    /// in length. A cell is blocked where the maze holds [`WALL`].
    pub fn from_chars(maze: &Vec<Vec<char>>) -> (out: Option<Grid>)
        ensures
            out.is_some() <==> even_rows(maze@),
            out matches Some(g) ==> g.wf() && g@ == flags_of(maze@),
    {
        let mut flags: Vec<Vec<bool>> = Vec::new();
        let mut r: usize = 0;
        while r < maze.len()
            invariant
                r <= maze@.len(),
                flags@.len() == r,
                forall|k: int| 0 <= k < r ==> (#[trigger] flags@[k])@ == flags_of(maze@)[k],
            decreases maze@.len() - r,
        {
            let line = &maze[r];
            let mut row: Vec<bool> = Vec::new();
            let mut c: usize = 0;
            while c < line.len()
                invariant
                    c <= line@.len(),
                    row@.len() == c,
                    forall|k: int| 0 <= k < c ==> row@[k] == (line@[k] != WALL),
                decreases line@.len() - c,
            {
                row.push(line[c] != WALL);
                c += 1;
            }
            assert(row@ =~= flags_of(maze@)[r as int]);
            flags.push(row);
            r += 1;
        }
        proof {
            assert(rows_of(flags@) =~~= flags_of(maze@));
            assert forall|k: int| 0 <= k < maze@.len() implies (#[trigger] flags@[k]).len()
                == maze@[k].len() by {
                assert(flags@[k]@ == flags_of(maze@)[k]);
            }
            if even_rows(maze@) {
                assert forall|k: int| 0 <= k < flags@.len() implies (#[trigger] flags@[k]).len()
                    == flags@[0].len() by {
                    assert(maze@[k].len() == maze@[0].len());
                }
            }
            if even_rows(flags@) {
                assert forall|k: int| 0 <= k < maze@.len() implies (#[trigger] maze@[k]).len()
                    == maze@[0].len() by {
                    assert(flags@[k].len() == flags@[0].len());
                }
            }
        }
        Grid::from_rows(&flags)
    }

    /// The number of rows.
    pub fn rows(&self) -> (n: usize)
        requires
            self.wf(),
        ensures
            n == self@.len(),
    {
        self.cells.row_count()
    }

    /// The number of columns.
    pub fn cols(&self) -> (n: usize)
        requires
            self.wf(),
        ensures
            n == self.width(),
    {
        self.cells.col_count()
    }

    /// Whether `c` lies inside the grid and is passable.
    pub fn is_passable(&self, c: Coordinate) -> (b: bool)
        requires
            self.wf(),
        ensures
            b == open_at(self@, c),
    {
        self.cells.holds(c) && self.cells.get(c)
    }

    /// The passable cells one step away from `c`, in the order down, right,
    /// up, left. A step that would leave the grid yields no cell, also where
    /// `c` itself lies outside.
    pub fn neighbors(&self, c: Coordinate) -> (out: Vec<Coordinate>)
        requires
            self.wf(),
        ensures
            out@ == neighbors_of(self@, c),
    {
        let mut out: Vec<Coordinate> = Vec::new();
        if c.row < usize::MAX {
            let n = Coordinate { row: c.row + 1, col: c.col };
            if self.is_passable(n) {
                out.push(n);
            }
        }
        assert(out@ =~= pick(self@, c.row + 1, c.col as int));
        if c.col < usize::MAX {
            let n = Coordinate { row: c.row, col: c.col + 1 };
            if self.is_passable(n) {
                out.push(n);
            }
        }
        assert(out@ =~= pick(self@, c.row + 1, c.col as int) + pick(self@, c.row as int, c.col + 1));
        if c.row > 0 {
            let n = Coordinate { row: c.row - 1, col: c.col };
            if self.is_passable(n) {
                out.push(n);
            }
        }
        assert(out@ =~= pick(self@, c.row + 1, c.col as int) + pick(self@, c.row as int, c.col + 1)
            + pick(self@, c.row - 1, c.col as int));
        if c.col > 0 {
            let n = Coordinate { row: c.row, col: c.col - 1 };
            if self.is_passable(n) {
                out.push(n);
            }
        }
        assert(out@ =~= neighbors_of(self@, c));
        out
    }
}

} // verus!
