//! What drawing one frame of the grid writes to the terminal.
use vstd::prelude::*;
use crate::cell::Color;
use crate::grid::Grid;

verus! {

/// One terminal operation of a frame.
#[derive(Clone, Copy, Debug, PartialEq, Eq, Structural)]
pub enum DrawOp {
    /// Set the foreground color, then print the glyph.
    Paint(Color, char),
    /// Move to the start of the next row.
    NewLine,
}

/// The operations that draw row `x`: one paint per cell, left to right.
pub open spec fn row_ops(g: Grid, x: int) -> Seq<DrawOp> {
    Seq::new(g.cols as nat, |y: int| DrawOp::Paint(g.at(x, y).color, g.at(x, y).glyph))
}

/// The operations that draw the first `k` rows, with a line break between
/// two rows and none after the last.
pub open spec fn frame_ops_upto(g: Grid, k: int) -> Seq<DrawOp>
    decreases k,
{
    if k <= 0 {
        Seq::empty()
    } else if k == 1 {
        row_ops(g, 0)
    } else {
        frame_ops_upto(g, k - 1).push(DrawOp::NewLine) + row_ops(g, k - 1)
    }
}

/// The operations that draw the whole grid from its top-left corner: every
/// cell's glyph in its color exactly once, rows separated by line breaks,
/// no line break after the final row.
pub fn frame_ops(grid: &Grid) -> (ops: Vec<DrawOp>)
    requires
        grid.wf(),
    ensures
        ops@ == frame_ops_upto(*grid, grid.rows as int),
{
    let rows = grid.rows;
    let cols = grid.cols;
    let mut ops: Vec<DrawOp> = Vec::new();
    let mut x: usize = 0;
    while x < rows
        invariant
            grid.wf(),
            rows == grid.rows,
            cols == grid.cols,
            x <= rows,
            ops@ == frame_ops_upto(*grid, x as int),
        decreases rows - x,
    {
        if x > 0 {
            ops.push(DrawOp::NewLine);
        }
        let ghost start = ops@;
        let mut y: usize = 0;
        while y < cols
            invariant
                grid.wf(),
                rows == grid.rows,
                cols == grid.cols,
                x < rows,
                y <= cols,
                ops@ == start + row_ops(*grid, x as int).take(y as int),
            decreases cols - y,
        {
            let cell = match grid.get(x, y) {
                Some(cell) => cell,
                None => crate::cell::Cell::empty(),
            };
            ops.push(DrawOp::Paint(cell.color, cell.glyph));
            assert(row_ops(*grid, x as int).take(y as int + 1) =~= row_ops(*grid, x as int).take(y as int).push(
                DrawOp::Paint(cell.color, cell.glyph),
            ));
            y = y + 1;
        }
        assert(row_ops(*grid, x as int).take(cols as int) =~= row_ops(*grid, x as int));
        if x == 0 {
            assert(start =~= Seq::<DrawOp>::empty());
            assert(ops@ =~= frame_ops_upto(*grid, 1));
        }
        x = x + 1;
    }
    ops
}

} // verus!
