//! The rectangular buffer of cells.
use vstd::prelude::*;
use crate::cell::{Cell, Mobility, empty_cell};

verus! {

/// The flat position of `(r, c)` lies inside a buffer of `rows * cols`.
pub proof fn lemma_index_in_range(rows: int, cols: int, r: int, c: int)
    requires
        0 <= r < rows,
        0 <= c < cols,
    ensures
        0 <= r * cols + c < rows * cols,
{
    assert(0 <= r * cols + c < rows * cols) by (nonlinear_arith)
        requires
            0 <= r < rows,
            0 <= c < cols,
    ;
}

/// Two in-range positions share a flat position only when they are the same.
pub proof fn lemma_index_injective(cols: int, r1: int, c1: int, r2: int, c2: int)
    requires
        0 <= r1,
        0 <= r2,
        0 <= c1 < cols,
        0 <= c2 < cols,
        r1 * cols + c1 == r2 * cols + c2,
    ensures
        r1 == r2,
        c1 == c2,
{
    if r1 < r2 {
        assert(r1 * cols + c1 < r2 * cols + c2) by (nonlinear_arith)
            requires
                r1 < r2,
                0 <= c1 < cols,
                0 <= c2,
        ;
    } else if r2 < r1 {
        assert(r2 * cols + c2 < r1 * cols + c1) by (nonlinear_arith)
            requires
                r2 < r1,
                0 <= c2 < cols,
                0 <= c1,
        ;
    }
}

/// A grid of `rows` by `cols` cells, stored row after row.
pub struct Grid {
    pub rows: usize,
    pub cols: usize,
    pub cells: Vec<Cell>,
}

impl Grid {
    pub open spec fn wf(&self) -> bool {
        &&& self.cells@.len() == self.rows * self.cols
        &&& self.rows * self.cols <= usize::MAX
    }

    pub open spec fn in_bounds(&self, r: int, c: int) -> bool {
        0 <= r < self.rows && 0 <= c < self.cols
    }

    pub open spec fn index_of(&self, r: int, c: int) -> int {
        r * self.cols + c
    }

    /// The cell at row `r`, column `c`.
    pub open spec fn at(&self, r: int, c: int) -> Cell {
        self.cells@[self.index_of(r, c)]
    }

    /// `(r, c)` exists and holds nothing.
    pub open spec fn vacant(&self, r: int, c: int) -> bool {
        self.in_bounds(r, c) && self.at(r, c).is_empty()
    }

    /// A grid of the given size in which every cell is empty.
    pub fn new(rows: usize, cols: usize) -> (g: Grid)
        requires
            rows * cols <= usize::MAX,
        ensures
            g.wf(),
            g.rows == rows,
            g.cols == cols,
            forall|r: int, c: int| g.in_bounds(r, c) ==> g.at(r, c) == empty_cell(),
            g.cells@ == Seq::new((rows * cols) as nat, |k: int| empty_cell()),
    {
        let n: usize = rows * cols;
        let mut cells: Vec<Cell> = Vec::new();
        let mut i: usize = 0;
        while i < n
            invariant
                i <= n,
                cells@.len() == i,
                forall|k: int| 0 <= k < i ==> cells@[k] == empty_cell(),
            decreases n - i,
        {
            cells.push(Cell::empty());
            i = i + 1;
        }
        let g = Grid { rows, cols, cells };
        assert(g.cells@ =~= Seq::new((rows * cols) as nat, |k: int| empty_cell()));
        assert forall|r: int, c: int| g.in_bounds(r, c) implies g.at(r, c) == empty_cell() by {
            lemma_index_in_range(rows as int, cols as int, r, c);
        }
        g
    }

    pub fn rows(&self) -> (r: usize)
        ensures
            r == self.rows,
    {
        self.rows
    }

    pub fn cols(&self) -> (c: usize)
        ensures
            c == self.cols,
    {
        self.cols
    }

    /// The cell at `(r, c)`, or `None` where that position does not exist.
    pub fn get(&self, r: usize, c: usize) -> (res: Option<Cell>)
        requires
            self.wf(),
        ensures
            self.in_bounds(r as int, c as int) ==> res == Some(self.at(r as int, c as int)),
            !self.in_bounds(r as int, c as int) ==> res is None,
    {
        if r < self.rows && c < self.cols {
            proof {
                lemma_index_in_range(self.rows as int, self.cols as int, r as int, c as int);
            }
            Some(self.cells[r * self.cols + c])
        } else {
            None
        }
    }

    /// Writes `cell` at `(r, c)` and returns true; returns false and leaves the
    /// grid as it was where that position does not exist.
    pub fn set(&mut self, r: usize, c: usize, cell: Cell) -> (done: bool)
        requires
            old(self).wf(),
        ensures
            final(self).wf(),
            final(self).rows == old(self).rows,
            final(self).cols == old(self).cols,
            done == old(self).in_bounds(r as int, c as int),
            done ==> final(self).cells@ == old(self).cells@.update(
                old(self).index_of(r as int, c as int),
                cell,
            ),
            !done ==> final(self).cells@ == old(self).cells@,
            forall|i: int, j: int|
                #![trigger final(self).at(i, j)]
                final(self).in_bounds(i, j) ==> final(self).at(i, j) == if done && i == r && j == c {
                    cell
                } else {
                    old(self).at(i, j)
                },
    {
        if r < self.rows && c < self.cols {
            proof {
                lemma_index_in_range(self.rows as int, self.cols as int, r as int, c as int);
            }
            let i: usize = r * self.cols + c;
            self.cells.set(i, cell);
            proof {
                assert forall|a: int, b: int|
                    #![trigger self.at(a, b)]
                    self.in_bounds(a, b) implies self.at(a, b) == if a == r && b == c {
                        cell
                    } else {
                        old(self).at(a, b)
                    } by {
                    lemma_index_in_range(self.rows as int, self.cols as int, a, b);
                    if self.index_of(a, b) == i {
                        lemma_index_injective(self.cols as int, a, b, r as int, c as int);
                    }
                }
            }
            true
        } else {
            false
        }
    }

    /// True when `(r, c)` exists and is empty; positions outside the grid
    /// are never empty.
    pub fn cell_empty(&self, r: usize, c: usize) -> (res: bool)
        requires
            self.wf(),
        ensures
            res == self.vacant(r as int, c as int),
    {
        if r < self.rows && c < self.cols {
            proof {
                lemma_index_in_range(self.rows as int, self.cols as int, r as int, c as int);
            }
            match self.cells[r * self.cols + c].mobility {
                Mobility::Empty => true,
                _ => false,
            }
        } else {
            false
        }
    }

    /// Exchanges the whole contents of `(r1, c1)` and `(r2, c2)`. Where either
    /// position does not exist the grid is left as it was.
    pub fn swap_cells(&mut self, r1: usize, c1: usize, r2: usize, c2: usize)
        requires
            old(self).wf(),
        ensures
            final(self).wf(),
            final(self).rows == old(self).rows,
            final(self).cols == old(self).cols,
            ({
                let g = *old(self);
                let i = g.index_of(r1 as int, c1 as int);
                let j = g.index_of(r2 as int, c2 as int);
                if g.in_bounds(r1 as int, c1 as int) && g.in_bounds(r2 as int, c2 as int) {
                    final(self).cells@ == g.cells@.update(i, g.cells@[j]).update(j, g.cells@[i])
                } else {
                    final(self).cells@ == g.cells@
                }
            }),
            forall|i: int, j: int|
                #![trigger final(self).at(i, j)]
                final(self).in_bounds(i, j) ==> final(self).at(i, j) == swapped_at(
                    *old(self),
                    r1 as int,
                    c1 as int,
                    r2 as int,
                    c2 as int,
                    i,
                    j,
                ),
    {
        if r1 < self.rows && c1 < self.cols && r2 < self.rows && c2 < self.cols {
            proof {
                lemma_index_in_range(self.rows as int, self.cols as int, r1 as int, c1 as int);
                lemma_index_in_range(self.rows as int, self.cols as int, r2 as int, c2 as int);
            }
            let i: usize = r1 * self.cols + c1;
            let j: usize = r2 * self.cols + c2;
            let a = self.cells[i];
            let b = self.cells[j];
            self.cells.set(i, b);
            self.cells.set(j, a);
            proof {
                assert forall|x: int, y: int|
                    #![trigger self.at(x, y)]
                    self.in_bounds(x, y) implies self.at(x, y) == swapped_at(
                        *old(self),
                        r1 as int,
                        c1 as int,
                        r2 as int,
                        c2 as int,
                        x,
                        y,
                    ) by {
                    lemma_index_in_range(self.rows as int, self.cols as int, x, y);
                    if self.index_of(x, y) == i {
                        lemma_index_injective(self.cols as int, x, y, r1 as int, c1 as int);
                    }
                    if self.index_of(x, y) == j {
                        lemma_index_injective(self.cols as int, x, y, r2 as int, c2 as int);
                    }
                }
            }
        }
    }
}

/// What `(i, j)` holds after the contents of `(r1, c1)` and `(r2, c2)` of `g`
/// are exchanged, both positions existing; `g` itself where one does not.
pub open spec fn swapped_at(g: Grid, r1: int, c1: int, r2: int, c2: int, i: int, j: int) -> Cell {
    if !(g.in_bounds(r1, c1) && g.in_bounds(r2, c2)) {
        g.at(i, j)
    } else if i == r2 && j == c2 {
        g.at(r1, c1)
    } else if i == r1 && j == c1 {
        g.at(r2, c2)
    } else {
        g.at(i, j)
    }
}

} // verus!
