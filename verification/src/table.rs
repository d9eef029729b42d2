//! A rectangular table of values, one per cell, stored row after row.

use vstd::prelude::*;
use crate::model::{Coordinate, inside};

verus! {

/// A table with `rows` × `cols` entries. Its view is the sequence of its rows.
pub struct Table<T> {
    rows: usize,
    cols: usize,
    data: Vec<T>,
}

/// The rows of a nested vector, each taken by its view.
pub open spec fn rows_of<T>(rows: Seq<Vec<T>>) -> Seq<Seq<T>> {
    Seq::new(rows.len(), |r: int| rows[r]@)
}

/// All rows of `rows` are as long as the first.
pub open spec fn even_rows<T>(rows: Seq<Vec<T>>) -> bool {
    forall|r: int| 0 <= r < rows.len() ==> (#[trigger] rows[r]).len() == rows[0].len()
}

proof fn lemma_index_bound(rows: int, cols: int, r: int, c: int)
    requires
        0 <= r < rows,
        0 <= c < cols,
    ensures
        0 <= r * cols + c < rows * cols,
        0 <= r * cols <= rows * cols,
{
    assert(r * cols + cols <= rows * cols) by (nonlinear_arith)
        requires
            0 <= r < rows,
            0 <= cols,
    ;
    assert(0 <= r * cols) by (nonlinear_arith)
        requires
            0 <= r,
            0 <= cols,
    ;
}

proof fn lemma_index_distinct(cols: int, r1: int, c1: int, r2: int, c2: int)
    requires
        0 <= r1,
        0 <= r2,
        0 <= c1 < cols,
        0 <= c2 < cols,
        r1 != r2 || c1 != c2,
    ensures
        r1 * cols + c1 != r2 * cols + c2,
{
    if r1 < r2 {
        assert(r1 * cols + cols <= r2 * cols) by (nonlinear_arith)
            requires
                0 <= r1 < r2,
                0 <= cols,
        ;
    } else if r2 < r1 {
        assert(r2 * cols + cols <= r1 * cols) by (nonlinear_arith)
            requires
                0 <= r2 < r1,
                0 <= cols,
        ;
    }
}

/// How many entries of `s` satisfy `f`.
pub open spec fn count_in<T>(s: Seq<T>, f: spec_fn(T) -> bool) -> nat
    decreases s.len(),
{
    if s.len() == 0 {
        0
    } else {
        count_in(s.drop_last(), f) + if f(s.last()) {
            1nat
        } else {
            0nat
        }
    }
}

proof fn lemma_count_update<T>(s: Seq<T>, i: int, value: T, f: spec_fn(T) -> bool)
    requires
        0 <= i < s.len(),
    ensures
        count_in(s.update(i, value), f) + (if f(s[i]) {
            1nat
        } else {
            0nat
        }) == count_in(s, f) + (if f(value) {
            1nat
        } else {
            0nat
        }),
    decreases s.len(),
{
    let t = s.update(i, value);
    if i == s.len() - 1 {
        assert(t.drop_last() =~= s.drop_last());
    } else {
        assert(t.drop_last() =~= s.drop_last().update(i, value));
        lemma_count_update(s.drop_last(), i, value, f);
    }
}

impl<T: Copy> Table<T> {
    /// How many entries satisfy `f`.
    pub closed spec fn count(&self, f: spec_fn(T) -> bool) -> nat {
        count_in(self.data@, f)
    }

    /// The number of rows.
    pub closed spec fn height(&self) -> nat {
        self.rows as nat
    }

    /// The number of columns.
    pub closed spec fn width(&self) -> nat {
        self.cols as nat
    }

    /// The table as a sequence of rows.
    pub closed spec fn view(&self) -> Seq<Seq<T>> {
        Seq::new(
            self.rows as nat,
            |r: int| Seq::new(self.cols as nat, |c: int| self.data@[r * self.cols + c]),
        )
    }

    /// The storage holds exactly one entry per cell.
    pub closed spec fn stored(&self) -> bool {
        self.data.len() == self.rows * self.cols
    }

    /// The table is well formed: it has `height()` rows of `width()` entries.
    pub open spec fn wf(&self) -> bool {
        &&& self.stored()
        &&& self@.len() == self.height()
        &&& forall|r: int| 0 <= r < self.height() ==> (#[trigger] self@[r]).len() == self.width()
    }

    /// The entry at `c`.
    pub open spec fn at(&self, c: Coordinate) -> T {
        self@[c.row as int][c.col as int]
    }

    /// A table of the given size with `value` in every cell, or `None` if a
    /// table of that size cannot be addressed.
    pub fn filled(rows: usize, cols: usize, value: T) -> (out: Option<Table<T>>)
        ensures
            out.is_some() <==> rows * cols <= usize::MAX,
            out matches Some(t) ==> {
                &&& t.wf()
                &&& t.height() == rows
                &&& t.width() == cols
                &&& forall|c: Coordinate| inside(t@, c) ==> #[trigger] t.at(c) == value
            },
    {
        let total = match rows.checked_mul(cols) {
            Some(n) => n,
            None => {
                return None;
            },
        };
        let mut data: Vec<T> = Vec::new();
        let mut i: usize = 0;
        while i < total
            invariant
                i <= total,
                data@.len() == i,
                forall|k: int| 0 <= k < i ==> data@[k] == value,
            decreases total - i,
        {
            data.push(value);
            i += 1;
        }
        let t = Table { rows, cols, data };
        proof {
            assert forall|c: Coordinate| inside(t@, c) implies #[trigger] t.at(c) == value by {
                lemma_index_bound(rows as int, cols as int, c.row as int, c.col as int);
            }
        }
        Some(t)
    }

    /// The table whose rows are the given vectors, or `None` if they differ
    /// in length.
    pub fn from_rows(rows: &Vec<Vec<T>>) -> (out: Option<Table<T>>)
        ensures
            out.is_some() <==> even_rows(rows@),
            out matches Some(t) ==> t.wf() && t@ == rows_of(rows@),
    {
        let height = rows.len();
        let width = if height == 0 {
            0
        } else {
            rows[0].len()
        };
        let mut data: Vec<T> = Vec::new();
        let mut r: usize = 0;
        while r < height
            invariant
                height == rows@.len(),
                height > 0 ==> width == rows@[0].len(),
                r <= height,
                data@.len() == r * width,
                forall|k: int| 0 <= k < r ==> (#[trigger] rows@[k]).len() == width,
                forall|a: int, b: int|
                    0 <= a < r && 0 <= b < width ==> data@[a * width + b] == #[trigger] rows@[a]@[b],
            decreases height - r,
        {
            let row = &rows[r];
            if row.len() != width {
                return None;
            }
            let mut c: usize = 0;
            while c < width
                invariant
                    height == rows@.len(),
                    r < height,
                    row@ == rows@[r as int]@,
                    row@.len() == width,
                    c <= width,
                    data@.len() == r * width + c,
                    forall|a: int, b: int|
                        0 <= a < r && 0 <= b < width ==> data@[a * width + b] == #[trigger] rows@[a]@[b],
                    forall|b: int| 0 <= b < c ==> data@[r * width + b] == #[trigger] row@[b],
                decreases width - c,
            {
                let ghost before = data@;
                data.push(row[c]);
                proof {
                    assert forall|a: int, b: int| 0 <= a < r && 0 <= b < width implies data@[a * width
                        + b] == #[trigger] rows@[a]@[b] by {
                        lemma_index_bound(r as int, width as int, a, b);
                        assert(data@[a * width + b] == before[a * width + b]);
                    }
                }
                c += 1;
            }
            proof {
                assert((r + 1) * width == r * width + width) by (nonlinear_arith);
                assert forall|a: int, b: int| 0 <= a < r + 1 && 0 <= b < width implies data@[a * width
                    + b] == #[trigger] rows@[a]@[b] by {
                    if a == r {
                        assert(data@[r * width + b] == row@[b]);
                    }
                }
            }
            r += 1;
        }
        let t = Table { rows: height, cols: width, data };
        proof {
            assert(t@ =~~= rows_of(rows@)) by {
                assert forall|a: int| 0 <= a < height implies #[trigger] t@[a] =~= rows_of(rows@)[a] by {
                    assert(rows@[a].len() == width);
                    assert forall|b: int| 0 <= b < width implies t@[a][b] == rows@[a]@[b] by {
                        assert(data@[a * width + b] == rows@[a]@[b]);
                    }
                }
            }
        }
        Some(t)
    }

    /// The size of a table fits the machine's index type.
    pub proof fn lemma_size(&self)
        ensures
            self.height() <= usize::MAX,
            self.width() <= usize::MAX,
    {
    }

    /// A well-formed table has no more entries than the machine can index.
    pub proof fn lemma_area(&self)
        requires
            self.wf(),
        ensures
            self.height() * self.width() <= usize::MAX,
    {
    }

    /// The number of rows.
    pub fn row_count(&self) -> (n: usize)
        ensures
            n == self.height(),
    {
        self.rows
    }

    /// The number of columns.
    pub fn col_count(&self) -> (n: usize)
        ensures
            n == self.width(),
    {
        self.cols
    }

    /// Whether `c` names a cell of the table.
    pub fn holds(&self, c: Coordinate) -> (b: bool)
        requires
            self.wf(),
        ensures
            b == inside(self@, c),
    {
        c.row < self.rows && c.col < self.cols
    }

    /// The entry at `c`.
    pub fn get(&self, c: Coordinate) -> (value: T)
        requires
            self.wf(),
            inside(self@, c),
        ensures
            value == self.at(c),
    {
        proof {
            lemma_index_bound(self.rows as int, self.cols as int, c.row as int, c.col as int);
        }
        self.data[c.row * self.cols + c.col]
    }

    /// Replaces the entry at `c` by `value` and leaves the others as they are.
    pub fn set(&mut self, c: Coordinate, value: T)
        requires
            old(self).wf(),
            inside(old(self)@, c),
        ensures
            final(self).wf(),
            final(self).height() == old(self).height(),
            final(self).width() == old(self).width(),
            final(self)@ == old(self)@.update(
                c.row as int,
                old(self)@[c.row as int].update(c.col as int, value),
            ),
            forall|f: spec_fn(T) -> bool|
                (#[trigger] final(self).count(f)) + (if f(old(self).at(c)) {
                    1nat
                } else {
                    0nat
                }) == old(self).count(f) + (if f(value) {
                    1nat
                } else {
                    0nat
                }),
    {
        proof {
            lemma_index_bound(self.rows as int, self.cols as int, c.row as int, c.col as int);
        }
        let i = c.row * self.cols + c.col;
        self.data.set(i, value);
        proof {
            let goal = old(self)@.update(
                c.row as int,
                old(self)@[c.row as int].update(c.col as int, value),
            );
            assert forall|a: int| 0 <= a < self.rows implies #[trigger] self@[a] =~= goal[a] by {
                assert forall|b: int| 0 <= b < self.cols implies self@[a][b] == goal[a][b] by {
                    lemma_index_bound(self.rows as int, self.cols as int, a, b);
                    if a != c.row || b != c.col {
                        lemma_index_distinct(self.cols as int, a, b, c.row as int, c.col as int);
                    }
                }
            }
            assert(self@ =~~= goal);
            assert forall|f: spec_fn(T) -> bool|
                (#[trigger] self.count(f)) + (if f(old(self).at(c)) {
                    1nat
                } else {
                    0nat
                }) == old(self).count(f) + (if f(value) {
                    1nat
                } else {
                    0nat
                }) by {
                lemma_count_update(old(self).data@, i as int, value, f);
            }
        }
    }
}

} // verus!
