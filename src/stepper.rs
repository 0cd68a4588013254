//! The gravity and dispersal stepper: one call advances the simulation by one frame.
use vstd::prelude::*;
use crate::cell::{Bias, Cell, Mobility};
use crate::grid::{Grid, lemma_index_in_range, lemma_index_injective};
use crate::chance::random_below;

verus! {

/// How many cells of `s` satisfy `f`.
pub open spec fn tally(s: Seq<Cell>, f: spec_fn(Cell) -> bool) -> nat
    decreases s.len(),
{
    if s.len() == 0 {
        0
    } else {
        tally(s.drop_last(), f) + if f(s.last()) {
            1nat
        } else {
            0nat
        }
    }
}

/// The number of falling cells in `s`.
pub open spec fn count_falling(s: Seq<Cell>) -> nat {
    tally(s, |x: Cell| x.is_falling())
}

/// The number of empty cells in `s`.
pub open spec fn count_empty(s: Seq<Cell>) -> nat {
    tally(s, |x: Cell| x.is_empty())
}

pub proof fn lemma_tally_update(s: Seq<Cell>, i: int, v: Cell, f: spec_fn(Cell) -> bool)
    requires
        0 <= i < s.len(),
    ensures
        tally(s.update(i, v), f) + (if f(s[i]) {
            1int
        } else {
            0int
        }) == tally(s, f) + (if f(v) {
            1int
        } else {
            0int
        }),
    decreases s.len(),
{
    let t = s.update(i, v);
    if i == s.len() - 1 {
        assert(t.drop_last() =~= s.drop_last());
    } else {
        lemma_tally_update(s.drop_last(), i, v, f);
        assert(t.drop_last() =~= s.drop_last().update(i, v));
    }
}

/// No cell of `s` satisfies `f`: the tally is zero.
pub proof fn lemma_tally_none(s: Seq<Cell>, f: spec_fn(Cell) -> bool)
    requires
        forall|i: int| 0 <= i < s.len() ==> !f(#[trigger] s[i]),
    ensures
        tally(s, f) == 0,
    decreases s.len(),
{
    if s.len() > 0 {
        let t = s.drop_last();
        assert forall|i: int| 0 <= i < t.len() implies !f(#[trigger] t[i]) by {
            assert(t[i] == s[i]);
        }
        lemma_tally_none(t, f);
        assert(!f(s[s.len() - 1]));
    }
}

/// Where every entry of `b` that satisfies `f` has a counterpart in `a` that
/// does too, `b` has no more such entries than `a`.
pub proof fn lemma_tally_sub(a: Seq<Cell>, b: Seq<Cell>, f: spec_fn(Cell) -> bool)
    requires
        a.len() == b.len(),
        forall|i: int| 0 <= i < b.len() && f(#[trigger] b[i]) ==> f(a[i]),
    ensures
        tally(b, f) <= tally(a, f),
    decreases b.len(),
{
    if b.len() > 0 {
        let (a1, b1) = (a.drop_last(), b.drop_last());
        assert forall|i: int| 0 <= i < b1.len() && f(#[trigger] b1[i]) implies f(a1[i]) by {
            assert(b1[i] == b[i] && a1[i] == a[i]);
        }
        lemma_tally_sub(a1, b1, f);
        assert(f(b[b.len() - 1]) ==> f(a[a.len() - 1]));
    }
}

/// Exchanging two entries of a sequence of cells changes no count.
pub proof fn lemma_tally_swap(s: Seq<Cell>, i: int, j: int)
    requires
        0 <= i < s.len(),
        0 <= j < s.len(),
    ensures
        forall|f: spec_fn(Cell) -> bool|
            #[trigger] tally(s.update(i, s[j]).update(j, s[i]), f) == tally(s, f),
{
    assert forall|f: spec_fn(Cell) -> bool|
        #[trigger] tally(s.update(i, s[j]).update(j, s[i]), f) == tally(s, f) by {
        let t = s.update(i, s[j]);
        lemma_tally_update(s, i, s[j], f);
        lemma_tally_update(t, j, s[i], f);
    }
}

/// A cell of bias `bias` may go from `(r0, c0)` to `(r1, c1)` in one frame:
/// at most one row down, and sideways only toward its bias by at most `d`
/// columns, or, where jitter is on, one column either way within its row.
pub open spec fn within_reach(r0: int, c0: int, r1: int, c1: int, d: int, bias: Bias, jitter: bool) -> bool {
    &&& r0 <= r1 <= r0 + 1
    &&& {
        ||| (bias == Bias::Left && c0 - d <= c1 <= c0)
        ||| (bias == Bias::Right && c0 <= c1 <= c0 + d)
        ||| (jitter && r1 == r0 && (c1 == c0 + 1 || c1 == c0 - 1))
    }
}

/// The column `k` steps away from `c` in the direction of `bias`.
pub open spec fn toward(c: int, k: int, bias: Bias) -> int {
    match bias {
        Bias::Left => c - k,
        Bias::Right => c + k,
    }
}

/// Column `x` offers a blocked cell of row `r` a place: beside it or one row down.
pub open spec fn opening(g: Grid, r: int, x: int) -> bool {
    g.vacant(r, x) || g.vacant(r + 1, x)
}

/// The cell at `(r, c)` is falling, is not on the floor row, and either the
/// position below it is empty or one of the `d` columns in its bias direction
/// offers an opening.
pub open spec fn can_move(g: Grid, r: int, c: int, d: int) -> bool {
    &&& g.in_bounds(r, c)
    &&& r + 1 < g.rows
    &&& g.at(r, c).mobility is Falling
    &&& (g.vacant(r + 1, c) || exists|k: int|
        1 <= k <= d && #[trigger] opening(g, r, toward(c, k, g.at(r, c).mobility->Falling_0)))
}

/// No cell of the grid can move: a frame without jitter leaves it as it is.
pub open spec fn settled(g: Grid, d: int) -> bool {
    forall|r: int, c: int| !#[trigger] can_move(g, r, c, d)
}

/// `after` is `before` with its cells relocated: `o` maps each position of
/// `after` to the distinct position of `before` whose cell it now holds, and
/// every non-empty cell came from at most one row above and, sideways, as
/// `within_reach` allows for its bias.
pub open spec fn relocation(before: Grid, after: Grid, o: spec_fn(int, int) -> (int, int), d: int, jitter: bool) -> bool {
    &&& after.rows == before.rows
    &&& after.cols == before.cols
    &&& forall|i: int, j: int|
        #![trigger o(i, j)]
        after.in_bounds(i, j) ==> {
            &&& before.in_bounds(o(i, j).0, o(i, j).1)
            &&& after.at(i, j) == before.at(o(i, j).0, o(i, j).1)
            &&& !after.at(i, j).is_empty() ==> within_reach(o(i, j).0, o(i, j).1, i, j, d, after.at(i, j).mobility->Falling_0, jitter)
        }
    &&& forall|i1: int, j1: int, i2: int, j2: int|
        #![trigger o(i1, j1), o(i2, j2)]
        after.in_bounds(i1, j1) && after.in_bounds(i2, j2) && (i1 != i2 || j1 != j2) ==> o(i1, j1)
            != o(i2, j2)
}

/// What one cell's turn does to the grid: `s` maps each position to where its
/// new contents came from. Only the mover at `(r, c)` and empty cells change
/// place, nothing else is disturbed, the mover stays within reach and is
/// marked, and marks are only added.
spec fn shuffle(
    before: Grid,
    vb: Seq<bool>,
    after: Grid,
    va: Seq<bool>,
    s: spec_fn(int, int) -> (int, int),
    r: int,
    c: int,
    d: int,
    jitter: bool,
) -> bool {
    &&& after.wf()
    &&& after.rows == before.rows
    &&& after.cols == before.cols
    &&& before.at(r, c).is_falling()
    &&& before.in_bounds(r, c)
    &&& vb.len() == after.cells@.len()
    &&& va.len() == after.cells@.len()
    &&& forall|i: int, j: int|
        #![trigger s(i, j)]
        after.in_bounds(i, j) ==> {
            &&& before.in_bounds(s(i, j).0, s(i, j).1)
            &&& after.at(i, j) == before.at(s(i, j).0, s(i, j).1)
            &&& s(i, j) != (i, j) ==> (before.at(i, j).is_empty() || (i == r && j == c))
            &&& s(i, j) != (i, j) ==> (before.at(s(i, j).0, s(i, j).1).is_empty() || s(i, j) == (r, c))
            &&& s(i, j) == (r, c) ==> (within_reach(r, c, i, j, d, before.at(r, c).mobility->Falling_0, jitter) && va[after.index_of(i, j)])
        }
    &&& forall|i1: int, j1: int, i2: int, j2: int|
        #![trigger s(i1, j1), s(i2, j2)]
        after.in_bounds(i1, j1) && after.in_bounds(i2, j2) && (i1 != i2 || j1 != j2) ==> s(i1, j1)
            != s(i2, j2)
    &&& forall|k: int| 0 <= k < vb.len() && vb[k] ==> va[k]
}

/// The chance, in percent, that a falling cell tries one jitter step to the
/// right; the next band of the same width tries one to the left.
pub const JITTER_PERCENT: usize = 5;

/// The state of a frame in progress: the cells, the marks of cells that
/// have had their turn, and whether anything has moved.
pub struct Sweep {
    pub cells: Seq<Cell>,
    pub marks: Seq<bool>,
    pub moved: bool,
}

/// `(r, c)` exists in a `rows` by `cols` buffer and holds nothing.
pub open spec fn free(cells: Seq<Cell>, rows: int, cols: int, r: int, c: int) -> bool {
    &&& 0 <= r < rows
    &&& 0 <= c < cols
    &&& cells[r * cols + c].is_empty()
}

/// The mover at `(fr, fc)` goes to `(tr, tc)`, exchanging places with what was there, and is marked.
pub open spec fn move_to(p: Sweep, cols: int, fr: int, fc: int, tr: int, tc: int) -> Sweep {
    let i = fr * cols + fc;
    let j = tr * cols + tc;
    Sweep { cells: p.cells.update(i, p.cells[j]).update(j, p.cells[i]), marks: p.marks.update(j, true), moved: true }
}

/// How many columns the dispersal walk from column `c` can take before
/// leaving the grid or exceeding `d`.
pub open spec fn walk_limit(c: int, cols: int, d: int, bias: Bias) -> int {
    match bias {
        Bias::Left => if d < c { d } else { c },
        Bias::Right => if d < cols - 1 - c { d } else { cols - 1 - c },
    }
}

/// The dispersal walk of the mover that started at `(r, c)` and now stands
/// at `(lr, lc)`, from step `k + 1` on: at each column, first beside the
/// starting row, then one row down, wherever the position is free.
///
/// Both checks always look at the starting row `r` and the row below it,
/// wherever the mover stands. So a mover that dropped to row `r + 1` at one
/// column climbs back to row `r` at the next column when that position is
/// free, and drops again if the one below it is free too. The walk keeps
/// this as the observed behaviour of the animation rather than stopping at
/// the first gap; the mover still ends at most one row below where it began.
pub open spec fn walk(p: Sweep, rows: int, cols: int, r: int, c: int, bias: Bias, lr: int, lc: int, k: int, limit: int) -> Sweep
    decreases limit - k,
{
    if k >= limit {
        p
    } else {
        let nc = toward(c, k + 1, bias);
        let beside = free(p.cells, rows, cols, r, nc);
        let p1 = if beside { move_to(p, cols, lr, lc, r, nc) } else { p };
        let (r1, c1) = if beside { (r, nc) } else { (lr, lc) };
        let below = free(p1.cells, rows, cols, r + 1, nc);
        let p2 = if below { move_to(p1, cols, r1, c1, r + 1, nc) } else { p1 };
        let (r2, c2) = if below { (r + 1, nc) } else { (r1, c1) };
        walk(p2, rows, cols, r, c, bias, r2, c2, k + 1, limit)
    }
}

/// The turn of the falling cell at `(r, c)`: it is marked, then tries a
/// jitter step when `roll` falls in one of the two jitter bands, else falls
/// into a free position below, else walks. `moved` of the result tells
/// whether this turn moved the cell.
pub open spec fn turn(p: Sweep, rows: int, cols: int, r: int, c: int, d: int, roll: Option<usize>) -> Sweep {
    let p0 = Sweep { cells: p.cells, marks: p.marks.update(r * cols + c, true), moved: false };
    let right = match roll {
        Some(v) => v < JITTER_PERCENT && c + 1 < cols && free(p.cells, rows, cols, r, c + 1),
        None => false,
    };
    let left = match roll {
        Some(v) => v < 2 * JITTER_PERCENT && c > 0 && free(p.cells, rows, cols, r, c - 1),
        None => false,
    };
    let bias = p.cells[r * cols + c].mobility->Falling_0;
    if right {
        move_to(p0, cols, r, c, r, c + 1)
    } else if left {
        move_to(p0, cols, r, c, r, c - 1)
    } else if free(p.cells, rows, cols, r + 1, c) {
        move_to(p0, cols, r, c, r + 1, c)
    } else {
        walk(p0, rows, cols, r, c, bias, r, c, 0, walk_limit(c, cols, d, bias))
    }
}

/// The jitter roll of flat position `k`, if rolls are given.
pub open spec fn roll_at(rolls: Option<Seq<usize>>, k: int) -> Option<usize> {
    match rolls {
        Some(v) => Some(v[k]),
        None => None,
    }
}

/// Row `r` walked left to right (`forward`) or right to left, from its
/// `t`-th column on: each falling cell not yet marked takes its turn.
pub open spec fn scan_row(
    p: Sweep,
    rows: int,
    cols: int,
    r: int,
    forward: bool,
    t: int,
    d: int,
    rolls: Option<Seq<usize>>,
) -> Sweep
    decreases cols - t,
{
    if t >= cols {
        p
    } else {
        let c = if forward { t } else { cols - 1 - t };
        let k = r * cols + c;
        let p1 = if p.cells[k].is_falling() && !p.marks[k] {
            let q = turn(p, rows, cols, r, c, d, roll_at(rolls, k));
            Sweep { cells: q.cells, marks: q.marks, moved: p.moved || q.moved }
        } else {
            p
        };
        scan_row(p1, rows, cols, r, forward, t + 1, d, rolls)
    }
}

/// Rows `i - 1` up to `0` scanned in turn, each in the direction given by
/// the parity of `frame + row`.
pub open spec fn scan_rows(p: Sweep, rows: int, cols: int, frame: int, i: int, d: int, rolls: Option<Seq<usize>>) -> Sweep
    decreases i,
{
    if i <= 0 {
        p
    } else {
        let r = i - 1;
        scan_rows(scan_row(p, rows, cols, r, (frame + r) % 2 == 0, 0, d, rolls), rows, cols, frame, r, d, rolls)
    }
}

/// One whole frame from `cells`, with no cell marked: the rows from the
/// second-to-last up to the top.
pub open spec fn frame_result(cells: Seq<Cell>, rows: int, cols: int, frame: int, d: int, rolls: Option<Seq<usize>>) -> Sweep {
    let start = Sweep { cells, marks: Seq::new((rows * cols) as nat, |k: int| false), moved: false };
    scan_rows(start, rows, cols, frame, rows - 1, d, rolls)
}

/// Jitter rolls are given.
pub open spec fn has_rolls(rolls: Option<&Vec<usize>>) -> bool {
    rolls is Some
}

/// The rolls as a sequence, if given.
pub open spec fn rolls_view(rolls: Option<&Vec<usize>>) -> Option<Seq<usize>> {
    match rolls {
        Some(v) => Some(v@),
        None => None,
    }
}

/// Moves the mover from `(lr, lc)` into the empty position `(nr, nc)` and marks it there.
fn shift(
    grid: &mut Grid,
    visited: &mut Vec<bool>,
    lr: usize,
    lc: usize,
    nr: usize,
    nc: usize,
    Ghost(before): Ghost<Grid>,
    Ghost(vb): Ghost<Seq<bool>>,
    Ghost(s): Ghost<spec_fn(int, int) -> (int, int)>,
    Ghost(r): Ghost<int>,
    Ghost(c): Ghost<int>,
    Ghost(d): Ghost<int>,
    Ghost(jitter): Ghost<bool>,
) -> (s2: Ghost<spec_fn(int, int) -> (int, int)>)
    requires
        shuffle(before, vb, *old(grid), old(visited)@, s, r, c, d, jitter),
        old(grid).in_bounds(lr as int, lc as int),
        s(lr as int, lc as int) == (r, c),
        old(grid).vacant(nr as int, nc as int),
        within_reach(r, c, nr as int, nc as int, d, before.at(r, c).mobility->Falling_0, jitter),
    ensures
        shuffle(before, vb, *final(grid), final(visited)@, s2@, r, c, d, jitter),
        s2@(nr as int, nc as int) == (r, c),
        forall|f: spec_fn(Cell) -> bool| #[trigger]
            tally(final(grid).cells@, f) == tally(old(grid).cells@, f),
        ({
            let p = Sweep { cells: old(grid).cells@, marks: old(visited)@, moved: false };
            let q = move_to(p, old(grid).cols as int, lr as int, lc as int, nr as int, nc as int);
            final(grid).cells@ == q.cells && final(visited)@ == q.marks
        }),
{
    let ghost g0 = *grid;
    let ghost v0 = visited@;
    grid.swap_cells(lr, lc, nr, nc);
    proof {
        lemma_index_in_range(g0.rows as int, g0.cols as int, nr as int, nc as int);
        lemma_index_in_range(g0.rows as int, g0.cols as int, lr as int, lc as int);
        lemma_tally_swap(g0.cells@, g0.index_of(lr as int, lc as int), g0.index_of(nr as int, nc as int));
    }
    let k: usize = nr * grid.cols + nc;
    visited.set(k, true);
    let ghost s2 = |i: int, j: int|
        if i == nr && j == nc {
            s(lr as int, lc as int)
        } else if i == lr && j == lc {
            s(nr as int, nc as int)
        } else {
            s(i, j)
        };
    proof {
        assert forall|i: int, j: int| grid.in_bounds(i, j) implies visited@[grid.index_of(i, j)]
            == (v0[grid.index_of(i, j)] || (i == nr && j == nc)) by {
            lemma_index_in_range(g0.rows as int, g0.cols as int, i, j);
            if grid.index_of(i, j) == k {
                lemma_index_injective(g0.cols as int, i, j, nr as int, nc as int);
            }
        }
        assert forall|i: int, j: int|
            #![trigger s2(i, j)]
            grid.in_bounds(i, j) implies {
                &&& before.in_bounds(s2(i, j).0, s2(i, j).1)
                &&& grid.at(i, j) == before.at(s2(i, j).0, s2(i, j).1)
                &&& s2(i, j) != (i, j) ==> (before.at(i, j).is_empty() || (i == r && j == c))
                &&& s2(i, j) != (i, j) ==> (before.at(s2(i, j).0, s2(i, j).1).is_empty() || s2(i, j) == (r, c))
                &&& s2(i, j) == (r, c) ==> (within_reach(r, c, i, j, d, before.at(r, c).mobility->Falling_0, jitter) && visited@[grid.index_of(i, j)])
            } by {
            assert(grid.in_bounds(i, j));
        }
        assert forall|i1: int, j1: int, i2: int, j2: int|
            #![trigger s2(i1, j1), s2(i2, j2)]
            grid.in_bounds(i1, j1) && grid.in_bounds(i2, j2) && (i1 != i2 || j1 != j2) implies s2(i1, j1)
                != s2(i2, j2) by {
        }
        assert forall|x: int| 0 <= x < vb.len() && vb[x] implies visited@[x] by {
            assert(v0[x]);
        }
    }
    Ghost(s2)
}

/// One falling cell's turn: an optional jitter step decided by `roll`, else a
/// fall into the empty position below, else a dispersal walk of up to `d`
/// columns in the cell's bias direction. Returns whether the cell moved, and
/// where each position's new contents came from.
fn process_cell(
    grid: &mut Grid,
    visited: &mut Vec<bool>,
    r: usize,
    c: usize,
    d: usize,
    roll: Option<usize>,
) -> (res: (bool, Ghost<spec_fn(int, int) -> (int, int)>))
    requires
        old(grid).wf(),
        old(visited)@.len() == old(grid).cells@.len(),
        r + 1 < old(grid).rows,
        c < old(grid).cols,
        old(grid).at(r as int, c as int).is_falling(),
        !old(visited)@[old(grid).index_of(r as int, c as int)],
    ensures
        shuffle(*old(grid), old(visited)@, *final(grid), final(visited)@, res.1@, r as int, c as int, d as int, roll is Some),
        forall|f: spec_fn(Cell) -> bool| #[trigger]
            tally(final(grid).cells@, f) == tally(old(grid).cells@, f),
        !res.0 ==> final(grid).cells@ == old(grid).cells@,
        !res.0 ==> final(visited)@ == old(visited)@.update(old(grid).index_of(r as int, c as int), true),
        !res.0 ==> !can_move(*old(grid), r as int, c as int, d as int),
        roll is None ==> res.0 == can_move(*old(grid), r as int, c as int, d as int),
        ({
            let p = Sweep { cells: old(grid).cells@, marks: old(visited)@, moved: false };
            let q = turn(p, old(grid).rows as int, old(grid).cols as int, r as int, c as int, d as int, roll);
            final(grid).cells@ == q.cells && final(visited)@ == q.marks && res.0 == q.moved
        }),
{
    let ghost g0 = *grid;
    let ghost v0 = visited@;
    proof {
        lemma_index_in_range(grid.rows as int, grid.cols as int, r as int, c as int);
    }
    let here: usize = r * grid.cols + c;
    visited.set(here, true);
    let ghost mut s = |i: int, j: int| (i, j);
    proof {
        assert forall|i: int, j: int| #![trigger s(i, j)] grid.in_bounds(i, j) && s(i, j) == (r as int, c as int)
            implies visited@[grid.index_of(i, j)] by {
            assert(i == r && j == c);
        }
        assert forall|x: int| 0 <= x < v0.len() && v0[x] implies visited@[x] by {}
    }
    let bias = match grid.cells[here].mobility {
        Mobility::Falling(b) => b,
        _ => Bias::Right,
    };
    let cols = grid.cols;
    if let Some(v) = roll {
        if v < JITTER_PERCENT && c + 1 < cols && grid.cell_empty(r, c + 1) {
            let s2 = shift(grid, visited, r, c, r, c + 1, Ghost(g0), Ghost(v0), Ghost(s), Ghost(r as int), Ghost(c as int), Ghost(d as int), Ghost(roll is Some));
            return (true, s2);
        } else if v < 2 * JITTER_PERCENT && c > 0 && grid.cell_empty(r, c - 1) {
            let s2 = shift(grid, visited, r, c, r, c - 1, Ghost(g0), Ghost(v0), Ghost(s), Ghost(r as int), Ghost(c as int), Ghost(d as int), Ghost(roll is Some));
            return (true, s2);
        }
    }
    if grid.cell_empty(r + 1, c) {
        let s2 = shift(grid, visited, r, c, r + 1, c, Ghost(g0), Ghost(v0), Ghost(s), Ghost(r as int), Ghost(c as int), Ghost(d as int), Ghost(roll is Some));
        return (true, s2);
    }
    let limit: usize = match bias {
        Bias::Left => if d < c { d } else { c },
        Bias::Right => if d < cols - 1 - c { d } else { cols - 1 - c },
    };
    let mut lr: usize = r;
    let mut lc: usize = c;
    let mut moved = false;
    let mut k: usize = 0;
    let ghost p0 = Sweep { cells: g0.cells@, marks: v0.update(here as int, true), moved: false };
    let ghost target = walk(p0, g0.rows as int, cols as int, r as int, c as int, bias, r as int, c as int, 0, limit as int);
    proof {
        assert(visited@ == p0.marks);
        assert(limit as int == walk_limit(c as int, cols as int, d as int, bias));
    }
    while k < limit
        invariant
            walk(
                Sweep { cells: grid.cells@, marks: visited@, moved },
                g0.rows as int,
                cols as int,
                r as int,
                c as int,
                bias,
                lr as int,
                lc as int,
                k as int,
                limit as int,
            ) == target,
            here == g0.index_of(r as int, c as int),
            g0.wf(),
            g0 == *old(grid),
            v0 == old(visited)@,
            cols == g0.cols,
            r + 1 < g0.rows,
            c < cols,
            limit <= d,
            bias == g0.at(r as int, c as int).mobility->Falling_0,
            bias == Bias::Left ==> limit <= c,
            bias == Bias::Right ==> limit <= cols - 1 - c,
            k <= limit,
            !g0.vacant(r as int + 1, c as int),
            shuffle(g0, v0, *grid, visited@, s, r as int, c as int, d as int, roll is Some),
            grid.in_bounds(lr as int, lc as int),
            s(lr as int, lc as int) == (r as int, c as int),
            forall|f: spec_fn(Cell) -> bool| #[trigger] tally(grid.cells@, f) == tally(g0.cells@, f),
            !moved ==> grid.cells@ == g0.cells@,
            !moved ==> visited@ == v0.update(g0.index_of(r as int, c as int), true),
            !moved ==> lr == r && lc == c,
            !moved ==> forall|x: int| 1 <= x <= k ==> !#[trigger] opening(g0, r as int, toward(c as int, x, bias)),
            moved ==> can_move(g0, r as int, c as int, d as int),
        decreases limit - k,
    {
        let step: usize = k + 1;
        let nc: usize = match bias {
            Bias::Left => c - step,
            Bias::Right => c + step,
        };
        assert(nc == toward(c as int, step as int, bias));
        let ghost cur = Sweep { cells: grid.cells@, marks: visited@, moved };
        let ghost (clr, clc) = (lr as int, lc as int);
        if grid.cell_empty(r, nc) {
            proof {
                if !moved {
                    assert(opening(g0, r as int, toward(c as int, step as int, bias)));
                }
            }
            let s2 = shift(grid, visited, lr, lc, r, nc, Ghost(g0), Ghost(v0), Ghost(s), Ghost(r as int), Ghost(c as int), Ghost(d as int), Ghost(roll is Some));
            proof {
                s = s2@;
            }
            lr = r;
            lc = nc;
            moved = true;
        }
        if grid.cell_empty(r + 1, nc) {
            proof {
                if !moved {
                    assert(opening(g0, r as int, toward(c as int, step as int, bias)));
                }
            }
            let s2 = shift(grid, visited, lr, lc, r + 1, nc, Ghost(g0), Ghost(v0), Ghost(s), Ghost(r as int), Ghost(c as int), Ghost(d as int), Ghost(roll is Some));
            proof {
                s = s2@;
            }
            lr = r + 1;
            lc = nc;
            moved = true;
        }
        proof {
            let rows = g0.rows as int;
            let beside = free(cur.cells, rows, cols as int, r as int, nc as int);
            let p1 = if beside { move_to(cur, cols as int, clr, clc, r as int, nc as int) } else { cur };
            let below = free(p1.cells, rows, cols as int, r as int + 1, nc as int);
            let p2 = if below { move_to(p1, cols as int, if beside { r as int } else { clr }, if beside { nc as int } else { clc }, r as int + 1, nc as int) } else { p1 };
            assert(Sweep { cells: grid.cells@, marks: visited@, moved } == p2);
        }
        k = step;
    }
    proof {
        if !moved {
            assert forall|x: int| 1 <= x <= d implies !#[trigger] opening(g0, r as int, toward(c as int, x, bias)) by {
                if x > limit {
                    assert(!g0.in_bounds(r as int, toward(c as int, x, bias)));
                }
            }
        }
    }
    (moved, Ghost(s))
}

/// Every non-empty cell that has not had its turn in this frame still sits
/// where it started.
spec fn anchored(g: Grid, vis: Seq<bool>, o: spec_fn(int, int) -> (int, int)) -> bool {
    forall|i: int, j: int|
        #![trigger o(i, j)]
        g.in_bounds(i, j) && !g.at(i, j).is_empty() && !vis[g.index_of(i, j)] ==> o(i, j) == (i, j)
}

/// `after` has the size of `before`, and every cell that was fixed in
/// `before` is unchanged in `after`.
pub open spec fn fixed_kept(before: Grid, after: Grid) -> bool {
    &&& after.rows == before.rows
    &&& after.cols == before.cols
    &&& forall|i: int, j: int|
        #![trigger before.at(i, j)]
        before.in_bounds(i, j) && before.at(i, j).is_fixed() ==> after.at(i, j) == before.at(i, j)
}

/// `after` has the size of `before`, and every non-empty cell on the floor
/// row of `before` is unchanged in `after`.
pub open spec fn floor_kept(before: Grid, after: Grid) -> bool {
    &&& after.rows == before.rows
    &&& after.cols == before.cols
    &&& forall|i: int, j: int|
        #![trigger before.at(i, j)]
        before.in_bounds(i, j) && i == before.rows - 1 && !before.at(i, j).is_empty() ==> after.at(i, j)
            == before.at(i, j)
}

/// A cell's turn keeps the frame's relocation map, its anchoring, the fixed
/// cells and the cells on the floor row.
proof fn lemma_compose(
    g0: Grid,
    before: Grid,
    vb: Seq<bool>,
    after: Grid,
    va: Seq<bool>,
    o: spec_fn(int, int) -> (int, int),
    s: spec_fn(int, int) -> (int, int),
    r: int,
    c: int,
    d: int,
    jitter: bool,
)
    requires
        relocation(g0, before, o, d, jitter),
        anchored(before, vb, o),
        fixed_kept(g0, before),
        floor_kept(g0, before),
        shuffle(before, vb, after, va, s, r, c, d, jitter),
        !vb[before.index_of(r, c)],
        before.wf(),
        r + 1 < before.rows,
    ensures
        relocation(g0, after, |i: int, j: int| o(s(i, j).0, s(i, j).1), d, jitter),
        anchored(after, va, |i: int, j: int| o(s(i, j).0, s(i, j).1)),
        fixed_kept(g0, after),
        floor_kept(g0, after),
{
    let o2 = |i: int, j: int| o(s(i, j).0, s(i, j).1);
    assert(o(r, c) == (r, c)) by {
        lemma_index_in_range(before.rows as int, before.cols as int, r, c);
    }
    assert forall|i: int, j: int|
        #![trigger o2(i, j)]
        after.in_bounds(i, j) implies {
            &&& g0.in_bounds(o2(i, j).0, o2(i, j).1)
            &&& after.at(i, j) == g0.at(o2(i, j).0, o2(i, j).1)
            &&& !after.at(i, j).is_empty() ==> within_reach(o2(i, j).0, o2(i, j).1, i, j, d, after.at(i, j).mobility->Falling_0, jitter)
        } by {
        let (x, y) = s(i, j);
        assert(o2(i, j) == o(x, y));
    }
    assert forall|i1: int, j1: int, i2: int, j2: int|
        #![trigger o2(i1, j1), o2(i2, j2)]
        after.in_bounds(i1, j1) && after.in_bounds(i2, j2) && (i1 != i2 || j1 != j2) implies o2(i1, j1)
            != o2(i2, j2) by {
    }
    assert forall|i: int, j: int|
        #![trigger o2(i, j)]
        after.in_bounds(i, j) && !after.at(i, j).is_empty() && !va[after.index_of(i, j)] implies o2(i, j) == (i, j) by {
        lemma_index_in_range(before.rows as int, before.cols as int, i, j);
        if s(i, j) == (i, j) {
            assert(!vb[before.index_of(i, j)]);
        }
    }
    assert forall|i: int, j: int|
        #![trigger g0.at(i, j)]
        g0.in_bounds(i, j) && g0.at(i, j).is_fixed() implies after.at(i, j) == g0.at(i, j) by {
        assert(before.at(i, j) == g0.at(i, j));
        assert(s(i, j) == (i, j));
    }
    assert forall|i: int, j: int|
        #![trigger g0.at(i, j)]
        g0.in_bounds(i, j) && i == g0.rows - 1 && !g0.at(i, j).is_empty() implies after.at(i, j) == g0.at(i, j) by {
        assert(before.at(i, j) == g0.at(i, j));
        assert(s(i, j) == (i, j));
    }
}

/// Column `j` comes before the `t`-th visit of a row walked left to right
/// (`forward`) or right to left.
spec fn visited_col(forward: bool, cols: int, t: int, j: int) -> bool {
    if forward {
        j < t
    } else {
        j >= cols - t
    }
}

/// Advances the simulation by one frame and returns whether any cell moved.
///
/// Rows are handled from the second-to-last up to the top, each walked in
/// the direction given by the parity of `frame + row`. `rolls`, when given,
/// holds one jitter roll per position (row after row); without it no jitter
/// is tried. The resulting cells and report are exactly those of
/// `frame_result`. Moreover cells are only relocated, never created or
/// destroyed; fixed cells and the cells resting on the floor row never change;
/// a cell moves at most one row down, and sideways only toward its bias by at
/// most `d` columns or by one jitter step. Without jitter the frame moves something exactly
/// when the grid was not settled, and a frame that moves nothing changes nothing.
pub fn step_frame(grid: &mut Grid, frame: usize, disperse_rate: usize, rolls: Option<&Vec<usize>>) -> (moved: bool)
    requires
        old(grid).wf(),
        match rolls {
            Some(v) => v@.len() == old(grid).cells@.len(),
            None => true,
        },
    ensures
        final(grid).wf(),
        final(grid).rows == old(grid).rows,
        final(grid).cols == old(grid).cols,
        exists|o: spec_fn(int, int) -> (int, int)| relocation(*old(grid), *final(grid), o, disperse_rate as int, has_rolls(rolls)),
        fixed_kept(*old(grid), *final(grid)),
        floor_kept(*old(grid), *final(grid)),
        count_falling(final(grid).cells@) == count_falling(old(grid).cells@),
        count_empty(final(grid).cells@) == count_empty(old(grid).cells@),
        !moved ==> final(grid).cells@ == old(grid).cells@,
        !moved ==> settled(*old(grid), disperse_rate as int),
        rolls is None ==> (moved <==> !settled(*old(grid), disperse_rate as int)),
        old(grid).rows <= 1 || old(grid).cols == 0 ==> !moved,
        ({
            let q = frame_result(old(grid).cells@, old(grid).rows as int, old(grid).cols as int, frame as int, disperse_rate as int, rolls_view(rolls));
            final(grid).cells@ == q.cells && moved == q.moved
        }),
{
    let ghost g0 = *grid;
    let ghost rv = rolls_view(rolls);
    let ghost target = frame_result(g0.cells@, g0.rows as int, g0.cols as int, frame as int, disperse_rate as int, rv);
    let ghost d = disperse_rate as int;
    let rows = grid.rows;
    let cols = grid.cols;
    let n: usize = rows * cols;
    let mut visited: Vec<bool> = Vec::new();
    while visited.len() < n
        invariant
            visited@.len() <= n,
            forall|k: int| 0 <= k < visited@.len() ==> !visited@[k],
        decreases n - visited@.len(),
    {
        visited.push(false);
    }
    let ghost mut o = |i: int, j: int| (i, j);
    let mut moved = false;
    let mut i: usize = if rows > 0 { rows - 1 } else { 0 };
    proof {
        assert(visited@ =~= Seq::new((rows * cols) as nat, |k: int| false));
        assert(Sweep { cells: grid.cells@, marks: visited@, moved } == Sweep { cells: g0.cells@, marks: Seq::new((rows * cols) as nat, |k: int| false), moved: false });
        assert forall|x: int, y: int| #![trigger o(x, y)] grid.in_bounds(x, y) implies grid.at(x, y) == g0.at(o(x, y).0, o(x, y).1) by {}
        assert forall|x: int, y: int| x >= i implies !#[trigger] can_move(g0, x, y, d) by {}
        assert forall|x: int, y: int| grid.in_bounds(x, y) && visited@[grid.index_of(x, y)] implies x >= i by {
            lemma_index_in_range(rows as int, cols as int, x, y);
        }
    }
    while i > 0
        invariant
            g0.wf(),
            grid.wf(),
            rows == g0.rows,
            cols == g0.cols,
            n == rows * cols,
            i < rows || i == 0,
            grid.rows == rows,
            grid.cols == cols,
            d == disperse_rate as int,
            visited@.len() == n,
            match rolls {
                Some(v) => v@.len() == n,
                None => true,
            },
            relocation(g0, *grid, o, d, has_rolls(rolls)),
            anchored(*grid, visited@, o),
            fixed_kept(g0, *grid),
            floor_kept(g0, *grid),
            forall|f: spec_fn(Cell) -> bool| #[trigger] tally(grid.cells@, f) == tally(g0.cells@, f),
            !moved ==> grid.cells@ == g0.cells@,
            !moved ==> forall|x: int, y: int| grid.in_bounds(x, y) && visited@[grid.index_of(x, y)] ==> x >= i,
            !moved ==> forall|x: int, y: int| x >= i ==> !#[trigger] can_move(g0, x, y, d),
            rolls is None && settled(g0, d) ==> !moved,
            rows <= 1 || cols == 0 ==> !moved,
            rv == rolls_view(rolls),
            scan_rows(Sweep { cells: grid.cells@, marks: visited@, moved }, rows as int, cols as int, frame as int, i as int, d, rv) == target,
        decreases i,
    {
        let r: usize = i - 1;
        let forward: bool = (frame % 2 + r % 2) % 2 == 0;
        assert(forward == ((frame as int + r as int) % 2 == 0));
        let ghost row_start = Sweep { cells: grid.cells@, marks: visited@, moved };
        let mut t: usize = 0;
        while t < cols
            invariant
                rv == rolls_view(rolls),
                scan_rows(scan_row(row_start, rows as int, cols as int, r as int, forward, 0, d, rv), rows as int, cols as int, frame as int, r as int, d, rv) == target,
                scan_row(Sweep { cells: grid.cells@, marks: visited@, moved }, rows as int, cols as int, r as int, forward, t as int, d, rv)
                    == scan_row(row_start, rows as int, cols as int, r as int, forward, 0, d, rv),
                g0.wf(),
                grid.wf(),
                rows == g0.rows,
                cols == g0.cols,
                n == rows * cols,
                r + 1 < rows,
                r == i - 1,
                t <= cols,
                grid.rows == rows,
                grid.cols == cols,
                d == disperse_rate as int,
                visited@.len() == n,
                match rolls {
                    Some(v) => v@.len() == n,
                    None => true,
                },
                relocation(g0, *grid, o, d, has_rolls(rolls)),
                anchored(*grid, visited@, o),
                fixed_kept(g0, *grid),
                floor_kept(g0, *grid),
                forall|f: spec_fn(Cell) -> bool| #[trigger] tally(grid.cells@, f) == tally(g0.cells@, f),
                !moved ==> grid.cells@ == g0.cells@,
                !moved ==> forall|x: int, y: int| grid.in_bounds(x, y) && visited@[grid.index_of(x, y)]
                    ==> (x > r || (x == r && visited_col(forward, cols as int, t as int, y))),
                !moved ==> forall|x: int, y: int| (x > r || (x == r && visited_col(forward, cols as int, t as int, y)))
                    ==> !#[trigger] can_move(g0, x, y, d),
                rolls is None && settled(g0, d) ==> !moved,
                rows <= 1 || cols == 0 ==> !moved,
            decreases cols - t,
        {
            let c: usize = if forward { t } else { cols - 1 - t };
            proof {
                lemma_index_in_range(rows as int, cols as int, r as int, c as int);
            }
            let here: usize = r * cols + c;
            let ghost before = *grid;
            let ghost vb = visited@;
            let ghost cur = Sweep { cells: grid.cells@, marks: visited@, moved };
            let idle = match grid.cells[here].mobility {
                Mobility::Falling(_) => visited[here],
                _ => true,
            };
            if !idle {
                let roll: Option<usize> = match rolls {
                    Some(v) => Some(v[here]),
                    None => None,
                };
                let (m, sg) = process_cell(grid, &mut visited, r, c, disperse_rate, roll);
                proof {
                    lemma_compose(g0, before, vb, *grid, visited@, o, sg@, r as int, c as int, d, has_rolls(rolls));
                    o = |x: int, y: int| o(sg@(x, y).0, sg@(x, y).1);
                    if !moved && !m {
                        assert forall|x: int, y: int| grid.in_bounds(x, y) && visited@[grid.index_of(x, y)]
                            implies (x > r || (x == r && visited_col(forward, cols as int, t as int + 1, y))) by {
                            lemma_index_in_range(rows as int, cols as int, x, y);
                            if grid.index_of(x, y) == here {
                                lemma_index_injective(cols as int, x, y, r as int, c as int);
                            } else {
                                assert(vb[before.index_of(x, y)]);
                                assert(before.in_bounds(x, y));
                                assert(x > r || (x == r && visited_col(forward, cols as int, t as int, y)));
                            }
                        }
                    }
                }
                proof {
                    if !moved {
                        lemma_same_cells(before, g0, r as int, c as int, d);
                    }
                }
                moved = moved || m;
            } else {
                proof {
                    if !moved && !(grid.at(r as int, c as int).mobility is Falling) {
                        assert(!can_move(g0, r as int, c as int, d));
                    }
                    if !moved && grid.at(r as int, c as int).mobility is Falling {
                        assert(visited@[grid.index_of(r as int, c as int)]);
                        assert(grid.in_bounds(r as int, c as int));
                        assert(!visited_col(forward, cols as int, t as int, c as int));
                    }
                }
            }
            proof {
                let k = r as int * cols as int + c as int;
                let p1 = if cur.cells[k].is_falling() && !cur.marks[k] {
                    let q = turn(cur, rows as int, cols as int, r as int, c as int, d, roll_at(rv, k));
                    Sweep { cells: q.cells, marks: q.marks, moved: cur.moved || q.moved }
                } else {
                    cur
                };
                assert(Sweep { cells: grid.cells@, marks: visited@, moved } == p1);
            }
            proof {
                if !moved {
                    assert forall|x: int, y: int| (x > r || (x == r && visited_col(forward, cols as int, t as int + 1, y)))
                        implies !#[trigger] can_move(g0, x, y, d) by {
                        if x == r && y == c {
                        } else if x == r {
                            assert(visited_col(forward, cols as int, t as int, y));
                        }
                    }
                }
            }
            t = t + 1;
        }
        i = r;
    }
    proof {
        assert(relocation(g0, *grid, o, d, has_rolls(rolls)));
        lemma_tally_count(g0.cells@, grid.cells@);
    }
    moved
}

proof fn lemma_tally_count(a: Seq<Cell>, b: Seq<Cell>)
    requires
        forall|f: spec_fn(Cell) -> bool| #[trigger] tally(b, f) == tally(a, f),
    ensures
        count_falling(b) == count_falling(a),
        count_empty(b) == count_empty(a),
{
    assert(tally(b, |x: Cell| x.is_falling()) == tally(a, |x: Cell| x.is_falling()));
    assert(tally(b, |x: Cell| x.is_empty()) == tally(a, |x: Cell| x.is_empty()));
}

/// Whether a cell can move depends on the grid's size and cells alone.
proof fn lemma_same_cells(a: Grid, b: Grid, r: int, c: int, d: int)
    requires
        a.rows == b.rows,
        a.cols == b.cols,
        a.cells@ == b.cells@,
    ensures
        can_move(a, r, c, d) == can_move(b, r, c, d),
{
    if can_move(a, r, c, d) && !a.vacant(r + 1, c) {
        let k = choose|k: int| 1 <= k <= d && #[trigger] opening(a, r, toward(c, k, a.at(r, c).mobility->Falling_0));
        assert(opening(b, r, toward(c, k, b.at(r, c).mobility->Falling_0)));
    }
    if can_move(b, r, c, d) && !b.vacant(r + 1, c) {
        let k = choose|k: int| 1 <= k <= d && #[trigger] opening(b, r, toward(c, k, b.at(r, c).mobility->Falling_0));
        assert(opening(a, r, toward(c, k, a.at(r, c).mobility->Falling_0)));
    }
}

/// Advances the simulation by one frame, as `step_frame` does, drawing a
/// fresh jitter roll in `0..100` for every position when `side_noise` is set:
/// with a roll below `JITTER_PERCENT` a cell tries one step right, below
/// twice that one step left. Returns whether any cell moved.
pub fn update_grid(grid: &mut Grid, frame: usize, disperse_rate: usize, side_noise: bool) -> (moved: bool)
    requires
        old(grid).wf(),
    ensures
        final(grid).wf(),
        final(grid).rows == old(grid).rows,
        final(grid).cols == old(grid).cols,
        exists|o: spec_fn(int, int) -> (int, int)| relocation(*old(grid), *final(grid), o, disperse_rate as int, side_noise),
        fixed_kept(*old(grid), *final(grid)),
        floor_kept(*old(grid), *final(grid)),
        count_falling(final(grid).cells@) == count_falling(old(grid).cells@),
        count_empty(final(grid).cells@) == count_empty(old(grid).cells@),
        !moved ==> final(grid).cells@ == old(grid).cells@,
        !moved ==> settled(*old(grid), disperse_rate as int),
        !side_noise ==> (moved <==> !settled(*old(grid), disperse_rate as int)),
        old(grid).rows <= 1 || old(grid).cols == 0 ==> !moved,
        !side_noise ==> ({
            let q = frame_result(old(grid).cells@, old(grid).rows as int, old(grid).cols as int, frame as int, disperse_rate as int, None);
            final(grid).cells@ == q.cells && moved == q.moved
        }),
        side_noise ==> exists|rolls: Seq<usize>| #![trigger rolls.len()] {
            &&& rolls.len() == old(grid).cells@.len()
            &&& forall|k: int| 0 <= k < rolls.len() ==> #[trigger] rolls[k] < 100
            &&& ({
                let q = frame_result(old(grid).cells@, old(grid).rows as int, old(grid).cols as int, frame as int, disperse_rate as int, Some(rolls));
                final(grid).cells@ == q.cells && moved == q.moved
            })
        },
{
    if side_noise {
        let n: usize = grid.cells.len();
        let mut rolls: Vec<usize> = Vec::new();
        while rolls.len() < n
            invariant
                rolls@.len() <= n,
                forall|k: int| 0 <= k < rolls@.len() ==> #[trigger] rolls@[k] < 100,
            decreases n - rolls@.len(),
        {
            rolls.push(random_below(100));
        }
        step_frame(grid, frame, disperse_rate, Some(&rolls))
    } else {
        step_frame(grid, frame, disperse_rate, None)
    }
}

/// Quiescence is stable: a frame that reports no movement leaves the cells
/// as they were and finds the grid settled, so the grid it leaves is settled
/// too, and every later frame without jitter reports no movement either.
pub proof fn lemma_quiescence_persists(before: Grid, after: Grid, d: int)
    requires
        after.rows == before.rows,
        after.cols == before.cols,
        after.cells@ == before.cells@,
        settled(before, d),
    ensures
        settled(after, d),
{
    assert forall|r: int, c: int| !#[trigger] can_move(after, r, c, d) by {
        lemma_same_cells(after, before, r, c, d);
    }
}

/// A grid with at most one row, or with no column, is settled: nothing in it
/// can fall.
pub proof fn lemma_flat_grid_settled(g: Grid, d: int)
    requires
        g.rows <= 1 || g.cols == 0,
    ensures
        settled(g, d),
{
}

/// What one frame without jitter does, as `update_grid` and `step_frame`
/// state it: the size is kept, a frame that moves nothing changes nothing,
/// and a frame moves something exactly when the grid was not settled.
pub open spec fn plain_frame(before: Grid, after: Grid, d: int, moved: bool) -> bool {
    &&& after.rows == before.rows
    &&& after.cols == before.cols
    &&& !moved ==> after.cells@ == before.cells@
    &&& (moved <==> !settled(before, d))
}

/// Quiescence is stable over any run: where `frames[i + 1]` is what frame `i`
/// without jitter made of `frames[i]`, reporting `moved[i]`, once one frame
/// reports no movement every later frame reports none either.
pub proof fn lemma_quiet_run(frames: Seq<Grid>, moved: Seq<bool>, d: int, k: int)
    requires
        frames.len() == moved.len() + 1,
        forall|i: int| 0 <= i < moved.len() ==> plain_frame(frames[i], frames[i + 1], d, #[trigger] moved[i]),
        0 <= k < moved.len(),
        !moved[k],
    ensures
        forall|j: int| k <= j < moved.len() ==> !#[trigger] moved[j],
{
    assert forall|j: int| k <= j < moved.len() implies !#[trigger] moved[j] by {
        lemma_quiet_from(frames, moved, d, k, j);
    }
}

proof fn lemma_quiet_from(frames: Seq<Grid>, moved: Seq<bool>, d: int, k: int, j: int)
    requires
        frames.len() == moved.len() + 1,
        forall|i: int| 0 <= i < moved.len() ==> plain_frame(frames[i], frames[i + 1], d, #[trigger] moved[i]),
        0 <= k <= j < moved.len(),
        !moved[k],
    ensures
        !moved[j],
    decreases j - k,
{
    if j > k {
        lemma_quiet_from(frames, moved, d, k, j - 1);
        assert(plain_frame(frames[j - 1], frames[j], d, moved[j - 1]));
        lemma_quiescence_persists(frames[j - 1], frames[j], d);
        assert(plain_frame(frames[j], frames[j + 1], d, moved[j]));
    }
}

/// Conservation over any run: where each frame keeps the numbers of falling
/// and of empty cells, as every stepper call does, the last grid has as many
/// of each as the first.
pub proof fn lemma_counts_kept(frames: Seq<Grid>)
    requires
        frames.len() > 0,
        forall|i: int|
            0 <= i < frames.len() - 1 ==> count_falling(frames[i + 1].cells@) == count_falling(#[trigger] frames[i].cells@)
                && count_empty(frames[i + 1].cells@) == count_empty(frames[i].cells@),
    ensures
        count_falling(frames.last().cells@) == count_falling(frames[0].cells@),
        count_empty(frames.last().cells@) == count_empty(frames[0].cells@),
    decreases frames.len(),
{
    if frames.len() > 1 {
        let rest = frames.drop_last();
        assert forall|i: int| 0 <= i < rest.len() - 1 implies count_falling(rest[i + 1].cells@) == count_falling(
            #[trigger] rest[i].cells@,
        ) && count_empty(rest[i + 1].cells@) == count_empty(rest[i].cells@) by {
            assert(rest[i] == frames[i] && rest[i + 1] == frames[i + 1]);
        }
        lemma_counts_kept(rest);
        assert(frames[frames.len() - 2] == rest.last());
    }
}

/// Fixed cells are immutable over any run: where each frame keeps the fixed
/// cells of the grid it starts from, as every stepper call does, every cell
/// fixed in the first grid is unchanged in the last.
pub proof fn lemma_fixed_kept_over_run(frames: Seq<Grid>)
    requires
        frames.len() > 0,
        forall|i: int| 0 <= i < frames.len() - 1 ==> fixed_kept(#[trigger] frames[i], frames[i + 1]),
    ensures
        fixed_kept(frames[0], frames.last()),
    decreases frames.len(),
{
    if frames.len() > 1 {
        let rest = frames.drop_last();
        assert forall|i: int| 0 <= i < rest.len() - 1 implies fixed_kept(#[trigger] rest[i], rest[i + 1]) by {
            assert(rest[i] == frames[i] && rest[i + 1] == frames[i + 1]);
        }
        lemma_fixed_kept_over_run(rest);
        let prev = frames[frames.len() - 2];
        assert(prev == rest.last());
        assert(fixed_kept(prev, frames.last()));
        let g0 = frames[0];
        assert forall|i: int, j: int|
            #![trigger g0.at(i, j)]
            g0.in_bounds(i, j) && g0.at(i, j).is_fixed() implies frames.last().at(i, j) == g0.at(i, j) by {
            assert(prev.at(i, j) == g0.at(i, j));
        }
    }
}

/// The cell at row `r`, column `c` of a buffer with `cols` columns.
pub open spec fn cell_of(cells: Seq<Cell>, cols: int, r: int, c: int) -> Cell {
    cells[r * cols + c]
}

/// The column visited at step `t` of a row walked left to right (`forward`) or right to left.
pub open spec fn col_at(forward: bool, cols: int, t: int) -> int {
    if forward {
        t
    } else {
        cols - 1 - t
    }
}

/// Steps `t` up to `t2` of a row scan meet no falling cell, so they change nothing.
proof fn lemma_scan_row_still(
    p: Sweep,
    rows: int,
    cols: int,
    r: int,
    forward: bool,
    t: int,
    t2: int,
    d: int,
    rolls: Option<Seq<usize>>,
)
    requires
        0 <= t <= t2 <= cols,
        forall|s: int| t <= s < t2 ==> !(#[trigger] cell_of(p.cells, cols, r, col_at(forward, cols, s))).is_falling(),
    ensures
        scan_row(p, rows, cols, r, forward, t, d, rolls) == scan_row(p, rows, cols, r, forward, t2, d, rolls),
    decreases t2 - t,
{
    if t < t2 {
        assert(!cell_of(p.cells, cols, r, col_at(forward, cols, t)).is_falling());
        lemma_scan_row_still(p, rows, cols, r, forward, t + 1, t2, d, rolls);
    }
}

/// Rows `j` up to `i - 1` hold no falling cell, so scanning them changes nothing.
proof fn lemma_scan_rows_still(p: Sweep, rows: int, cols: int, frame: int, i: int, j: int, d: int, rolls: Option<Seq<usize>>)
    requires
        0 <= j <= i,
        cols >= 0,
        forall|r: int, c: int| j <= r < i && 0 <= c < cols ==> !(#[trigger] cell_of(p.cells, cols, r, c)).is_falling(),
    ensures
        scan_rows(p, rows, cols, frame, i, d, rolls) == scan_rows(p, rows, cols, frame, j, d, rolls),
    decreases i - j,
{
    if i > j {
        let r = i - 1;
        let fw = (frame + r) % 2 == 0;
        assert forall|s: int| 0 <= s < cols implies !(#[trigger] cell_of(p.cells, cols, r, col_at(fw, cols, s))).is_falling() by {
            assert(0 <= col_at(fw, cols, s) < cols);
        }
        lemma_scan_row_still(p, rows, cols, r, fw, 0, cols, d, rolls);
        lemma_scan_rows_still(p, rows, cols, frame, i - 1, j, d, rolls);
    }
}

/// A lone falling cell falls one row: in a grid whose only falling cell
/// stands at `(k, 0)` with the position below it empty and every other cell
/// empty, a frame without jitter exchanges it with the empty cell below and
/// reports movement, whatever the frame number and dispersal distance.
pub proof fn lemma_lone_cell_falls(cells: Seq<Cell>, rows: int, cols: int, frame: int, d: int, k: int)
    requires
        cols >= 1,
        0 <= k,
        k + 1 < rows,
        cells.len() == rows * cols,
        cells[k * cols].is_falling(),
        forall|i: int| 0 <= i < cells.len() && i != k * cols ==> (#[trigger] cells[i]).is_empty(),
    ensures
        frame_result(cells, rows, cols, frame, d, None).cells == cells.update(k * cols, cells[(k + 1) * cols]).update(
            (k + 1) * cols,
            cells[k * cols],
        ),
        frame_result(cells, rows, cols, frame, d, None).moved,
{
    let start = Sweep { cells, marks: Seq::new((rows * cols) as nat, |q: int| false), moved: false };
    assert((k + 1) * cols == k * cols + cols) by (nonlinear_arith);
    // Rows below row k hold nothing that falls.
    assert forall|r: int, c: int| k + 1 <= r < rows - 1 && 0 <= c < cols implies !(#[trigger] cell_of(start.cells, cols, r, c)).is_falling() by {
        lemma_index_in_range(rows, cols, r, c);
        if r * cols + c == k * cols {
            lemma_index_injective(cols, r, c, k, 0);
        }
    }
    lemma_scan_rows_still(start, rows, cols, frame, rows - 1, k + 1, d, None);
    let fw = (frame + k) % 2 == 0;
    let p0 = Sweep { cells, marks: start.marks.update(k * cols, true), moved: false };
    assert(free(cells, rows, cols, k + 1, 0)) by {
        lemma_index_in_range(rows, cols, k + 1, 0);
    }
    let q = move_to(p0, cols, k, 0, k + 1, 0);
    assert(turn(start, rows, cols, k, 0, d, None) == q);
    let q1 = Sweep { cells: q.cells, marks: q.marks, moved: true };
    // After the move, row k holds nothing that falls.
    assert forall|c: int| 0 <= c < cols implies !(#[trigger] cell_of(q1.cells, cols, k, c)).is_falling() by {
        lemma_index_in_range(rows, cols, k, c);
        lemma_index_in_range(rows, cols, k + 1, 0);
        let i = k * cols + c;
        if c == 0 {
            assert(q1.cells[i] == cells[(k + 1) * cols]);
            assert(cells[(k + 1) * cols].is_empty());
        } else {
            assert(q1.cells[i] == cells[i]);
            assert(cells[i].is_empty());
        }
    }
    if fw {
        lemma_index_in_range(rows, cols, k, 0);
        assert(scan_row(start, rows, cols, k, fw, 0, d, None) == scan_row(q1, rows, cols, k, fw, 1, d, None));
        assert forall|s: int| 1 <= s < cols implies !(#[trigger] cell_of(q1.cells, cols, k, col_at(fw, cols, s))).is_falling() by {
            assert(!cell_of(q1.cells, cols, k, s).is_falling());
        }
        lemma_scan_row_still(q1, rows, cols, k, fw, 1, cols, d, None);
    } else {
        assert forall|s: int| 0 <= s < cols - 1 implies !(#[trigger] cell_of(start.cells, cols, k, col_at(fw, cols, s))).is_falling() by {
            let c = cols - 1 - s;
            lemma_index_in_range(rows, cols, k, c);
            if k * cols + c == k * cols {
            }
        }
        lemma_scan_row_still(start, rows, cols, k, fw, 0, cols - 1, d, None);
        lemma_index_in_range(rows, cols, k, 0);
        assert(scan_row(start, rows, cols, k, fw, cols - 1, d, None) == scan_row(q1, rows, cols, k, fw, cols, d, None));
    }
    assert(scan_row(start, rows, cols, k, fw, 0, d, None) == q1);
    // Rows above row k hold nothing that falls.
    assert forall|r: int, c: int| 0 <= r < k && 0 <= c < cols implies !(#[trigger] cell_of(q1.cells, cols, r, c)).is_falling() by {
        lemma_index_in_range(k, cols, r, c);
        lemma_index_in_range(rows, cols, k + 1, 0);
        let i = r * cols + c;
        assert(q1.cells[i] == cells[i]);
        assert(cells[i].is_empty());
    }
    lemma_scan_rows_still(q1, rows, cols, frame, k, 0, d, None);
}

/// `x` stands at `(k, 0)` of a buffer with `cols` columns and every other cell is empty.
pub open spec fn lone_at(cells: Seq<Cell>, cols: int, k: int, x: Cell) -> bool {
    &&& cells[k * cols] == x
    &&& forall|i: int| 0 <= i < cells.len() && i != k * cols ==> (#[trigger] cells[i]).is_empty()
}

/// A grid whose only non-empty cell rests on the floor row is left as it
/// is by a frame without jitter, which reports no movement.
pub proof fn lemma_floor_cell_rests(cells: Seq<Cell>, rows: int, cols: int, frame: int, d: int, x: Cell)
    requires
        cols >= 1,
        rows >= 1,
        cells.len() == rows * cols,
        lone_at(cells, cols, rows - 1, x),
    ensures
        frame_result(cells, rows, cols, frame, d, None).cells == cells,
        !frame_result(cells, rows, cols, frame, d, None).moved,
{
    let start = Sweep { cells, marks: Seq::new((rows * cols) as nat, |q: int| false), moved: false };
    assert forall|r: int, c: int| 0 <= r < rows - 1 && 0 <= c < cols implies !(#[trigger] cell_of(cells, cols, r, c)).is_falling() by {
        lemma_index_in_range(rows - 1, cols, r, c);
        assert((rows - 1) * cols + cols == rows * cols) by (nonlinear_arith);
        let i = r * cols + c;
        assert(cells[i].is_empty());
    }
    lemma_scan_rows_still(start, rows, cols, frame, rows - 1, 0, d, None);
}

/// The fall scenario for any size: a lone falling cell `x` at `(0, 0)` of an
/// otherwise empty grid, run through frames without jitter (`frames[i]`
/// being what frame `numbers[i - 1]` makes of `frames[i - 1]`), moves in each of the
/// first `rows - 1` frames, one row at a time, and then rests on the floor
/// row, where every further frame reports no movement and changes nothing.
pub proof fn lemma_fall_scenario(frames: Seq<Seq<Cell>>, numbers: Seq<int>, rows: int, cols: int, d: int, x: Cell)
    requires
        cols >= 1,
        rows >= 1,
        frames.len() == rows,
        numbers.len() == rows - 1,
        frames[0].len() == rows * cols,
        x.is_falling(),
        lone_at(frames[0], cols, 0, x),
        forall|i: int| 0 < i < rows ==> #[trigger] frames[i] == frame_result(frames[i - 1], rows, cols, numbers[i - 1], d, None).cells,
    ensures
        forall|i: int| 0 <= i < rows - 1 ==> #[trigger] frame_result(frames[i], rows, cols, numbers[i], d, None).moved,
        lone_at(frames[rows - 1], cols, rows - 1, x),
        forall|f: int| #![trigger frame_result(frames[rows - 1], rows, cols, f, d, None)]
            frame_result(frames[rows - 1], rows, cols, f, d, None).cells == frames[rows - 1]
            && !frame_result(frames[rows - 1], rows, cols, f, d, None).moved,
{
    lemma_fall_prefix(frames, numbers, rows, cols, d, x, rows - 1);
    assert forall|i: int| 0 <= i < rows - 1 implies #[trigger] frame_result(frames[i], rows, cols, numbers[i], d, None).moved by {
        lemma_fall_prefix(frames, numbers, rows, cols, d, x, i);
        lemma_lone_cell_falls(frames[i], rows, cols, numbers[i], d, i);
    }
    assert forall|f: int| #![trigger frame_result(frames[rows - 1], rows, cols, f, d, None)]
        frame_result(frames[rows - 1], rows, cols, f, d, None).cells == frames[rows - 1]
        && !frame_result(frames[rows - 1], rows, cols, f, d, None).moved by {
        lemma_floor_cell_rests(frames[rows - 1], rows, cols, f, d, x);
    }
}

/// After `k` frames of the fall scenario the cell stands at `(k, 0)`.
proof fn lemma_fall_prefix(frames: Seq<Seq<Cell>>, numbers: Seq<int>, rows: int, cols: int, d: int, x: Cell, k: int)
    requires
        cols >= 1,
        rows >= 1,
        frames.len() == rows,
        numbers.len() == rows - 1,
        frames[0].len() == rows * cols,
        x.is_falling(),
        lone_at(frames[0], cols, 0, x),
        forall|i: int| 0 < i < rows ==> #[trigger] frames[i] == frame_result(frames[i - 1], rows, cols, numbers[i - 1], d, None).cells,
        0 <= k < rows,
    ensures
        frames[k].len() == rows * cols,
        lone_at(frames[k], cols, k, x),
    decreases k,
{
    if k > 0 {
        lemma_fall_prefix(frames, numbers, rows, cols, d, x, k - 1);
        let a = frames[k - 1];
        assert(frames[k] == frame_result(a, rows, cols, numbers[k - 1], d, None).cells);
        lemma_lone_cell_falls(a, rows, cols, numbers[k - 1], d, k - 1);
        let b = frames[k];
        lemma_index_in_range(rows, cols, k - 1, 0);
        lemma_index_in_range(rows, cols, k, 0);
        assert(k * cols == (k - 1) * cols + cols) by (nonlinear_arith);
        assert forall|i: int| 0 <= i < b.len() && i != k * cols implies (#[trigger] b[i]).is_empty() by {
            if i == (k - 1) * cols {
                assert(b[i] == a[k * cols]);
            } else {
                assert(b[i] == a[i]);
            }
        }
    }
}

/// The only non-empty cells of `cells` are `x` at flat position `i` and `y`
/// at flat position `j`.
pub open spec fn pair_at(cells: Seq<Cell>, i: int, x: Cell, j: int, y: Cell) -> bool {
    &&& 0 <= i < cells.len()
    &&& 0 <= j < cells.len()
    &&& i != j
    &&& cells[i] == x
    &&& cells[j] == y
    &&& !x.is_empty()
    &&& !y.is_empty()
    &&& forall|q: int| 0 <= q < cells.len() && q != i && q != j ==> (#[trigger] cells[q]).is_empty()
}

/// The walk of a cell blocked by `y` below it, on an otherwise empty grid:
/// it ends one row down, `limit` columns toward its bias.
proof fn lemma_walk_slide(
    p: Sweep,
    rows: int,
    cols: int,
    r: int,
    c: int,
    bias: Bias,
    lr: int,
    lc: int,
    k: int,
    limit: int,
    x: Cell,
    y: Cell,
)
    requires
        0 <= r,
        r + 1 < rows,
        0 <= c < cols,
        p.cells.len() == rows * cols,
        0 <= k <= limit,
        forall|j: int| 1 <= j <= limit ==> 0 <= #[trigger] toward(c, j, bias) < cols,
        k == 0 ==> lr == r && lc == c,
        k > 0 ==> lr == r + 1 && lc == toward(c, k, bias) && p.moved,
        pair_at(p.cells, lr * cols + lc, x, (r + 1) * cols + c, y),
    ensures
        limit > 0 ==> ({
            let q = walk(p, rows, cols, r, c, bias, lr, lc, k, limit);
            &&& q.moved
            &&& q.cells.len() == p.cells.len()
            &&& pair_at(q.cells, (r + 1) * cols + toward(c, limit, bias), x, (r + 1) * cols + c, y)
        }),
    decreases limit - k,
{
    if k < limit {
        let nc = toward(c, k + 1, bias);
        assert(0 <= nc < cols);
        lemma_index_in_range(rows, cols, r, nc);
        lemma_index_in_range(rows, cols, r + 1, nc);
        lemma_index_in_range(rows, cols, r + 1, c);
        lemma_index_in_range(rows, cols, lr, lc);
        let a = r * cols + nc;
        let b = (r + 1) * cols + nc;
        let f = (r + 1) * cols + c;
        let cur = lr * cols + lc;
        if a == f {
            lemma_index_injective(cols, r, nc, r + 1, c);
        }
        if a == cur {
            lemma_index_injective(cols, r, nc, lr, lc);
        }
        if b == f {
            lemma_index_injective(cols, r + 1, nc, r + 1, c);
        }
        if b == a {
            lemma_index_injective(cols, r + 1, nc, r, nc);
        }
        assert(p.cells[a].is_empty());
        assert(free(p.cells, rows, cols, r, nc));
        let p1 = move_to(p, cols, lr, lc, r, nc);
        assert(pair_at(p1.cells, a, x, f, y)) by {
            assert forall|q: int| 0 <= q < p1.cells.len() && q != a && q != f implies (#[trigger] p1.cells[q]).is_empty() by {
                if q != cur {
                    assert(p1.cells[q] == p.cells[q]);
                }
            }
        }
        assert(p1.cells[b].is_empty());
        assert(free(p1.cells, rows, cols, r + 1, nc));
        let p2 = move_to(p1, cols, r, nc, r + 1, nc);
        assert(pair_at(p2.cells, b, x, f, y)) by {
            assert forall|q: int| 0 <= q < p2.cells.len() && q != b && q != f implies (#[trigger] p2.cells[q]).is_empty() by {
                if q != a {
                    assert(p2.cells[q] == p1.cells[q]);
                }
            }
        }
        lemma_walk_slide(p2, rows, cols, r, c, bias, r + 1, nc, k + 1, limit, x, y);
    }
}

/// The obstacle scenario for any position: a falling cell `x` at `(r, c)`,
/// away from the side columns, above a non-empty cell `y`, on an otherwise
/// empty grid. A frame without jitter with dispersal distance `d >= 1`
/// moves it one row down and between one and `d` columns toward its bias,
/// leaves `(r, c)` empty and `y` in place, and reports movement.
pub proof fn lemma_obstacle_dispersal(cells: Seq<Cell>, rows: int, cols: int, frame: int, d: int, r: int, c: int, x: Cell, y: Cell)
    requires
        0 <= r,
        r + 1 < rows,
        1 <= c < cols - 1,
        d >= 1,
        cells.len() == rows * cols,
        x.is_falling(),
        !y.is_falling(),
        pair_at(cells, r * cols + c, x, (r + 1) * cols + c, y),
    ensures
        ({
            let q = frame_result(cells, rows, cols, frame, d, None);
            let bias = x.mobility->Falling_0;
            q.moved && exists|k: int|
                1 <= k <= d && #[trigger] pair_at(q.cells, (r + 1) * cols + toward(c, k, bias), x, (r + 1) * cols + c, y)
        }),
{
    let start = Sweep { cells, marks: Seq::new((rows * cols) as nat, |q: int| false), moved: false };
    let bias = x.mobility->Falling_0;
    let here = r * cols + c;
    let under = (r + 1) * cols + c;
    lemma_index_in_range(rows, cols, r, c);
    lemma_index_in_range(rows, cols, r + 1, c);
    // Rows below row r hold nothing that falls.
    assert forall|rr: int, cc: int| r + 1 <= rr < rows - 1 && 0 <= cc < cols implies !(#[trigger] cell_of(start.cells, cols, rr, cc)).is_falling() by {
        lemma_index_in_range(rows, cols, rr, cc);
        let q = rr * cols + cc;
        if q == here {
            lemma_index_injective(cols, rr, cc, r, c);
        }
    }
    lemma_scan_rows_still(start, rows, cols, frame, rows - 1, r + 1, d, None);
    let fw = (frame + r) % 2 == 0;
    let limit = walk_limit(c, cols, d, bias);
    assert(1 <= limit <= d);
    let p0 = Sweep { cells, marks: start.marks.update(here, true), moved: false };
    assert(!free(cells, rows, cols, r + 1, c));
    assert forall|j: int| 1 <= j <= limit implies 0 <= #[trigger] toward(c, j, bias) < cols by {}
    lemma_walk_slide(p0, rows, cols, r, c, bias, r, c, 0, limit, x, y);
    let w = walk(p0, rows, cols, r, c, bias, r, c, 0, limit);
    assert(turn(start, rows, cols, r, c, d, None) == w);
    let q1 = Sweep { cells: w.cells, marks: w.marks, moved: true };
    let dest = (r + 1) * cols + toward(c, limit, bias);
    assert(pair_at(q1.cells, dest, x, under, y));
    let tc = if fw { c } else { cols - 1 - c };
    assert(col_at(fw, cols, tc) == c);
    // Before its turn, row r holds nothing else that falls.
    assert forall|s: int| 0 <= s < tc implies !(#[trigger] cell_of(start.cells, cols, r, col_at(fw, cols, s))).is_falling() by {
        let cc = col_at(fw, cols, s);
        lemma_index_in_range(rows, cols, r, cc);
        if r * cols + cc == here {
            lemma_index_injective(cols, r, cc, r, c);
        }
        if r * cols + cc == under {
            lemma_index_injective(cols, r, cc, r + 1, c);
        }
    }
    lemma_scan_row_still(start, rows, cols, r, fw, 0, tc, d, None);
    assert(scan_row(start, rows, cols, r, fw, tc, d, None) == scan_row(q1, rows, cols, r, fw, tc + 1, d, None));
    // After it, row r holds nothing that falls.
    assert forall|s: int| tc + 1 <= s < cols implies !(#[trigger] cell_of(q1.cells, cols, r, col_at(fw, cols, s))).is_falling() by {
        let cc = col_at(fw, cols, s);
        lemma_index_in_range(rows, cols, r, cc);
        lemma_index_in_range(rows, cols, r + 1, toward(c, limit, bias));
        if r * cols + cc == dest {
            lemma_index_injective(cols, r, cc, r + 1, toward(c, limit, bias));
        }
        if r * cols + cc == under {
            lemma_index_injective(cols, r, cc, r + 1, c);
        }
        assert(0 <= cc < cols);
        assert(r * cols + cc != dest && r * cols + cc != under);
        assert(q1.cells[r * cols + cc].is_empty());
    }
    lemma_scan_row_still(q1, rows, cols, r, fw, tc + 1, cols, d, None);
    // Rows above row r hold nothing that falls.
    assert forall|rr: int, cc: int| 0 <= rr < r && 0 <= cc < cols implies !(#[trigger] cell_of(q1.cells, cols, rr, cc)).is_falling() by {
        lemma_index_in_range(r, cols, rr, cc);
        lemma_index_in_range(rows, cols, r, 0);
        assert(r * cols <= (r + 1) * cols) by (nonlinear_arith)
            requires
                cols >= 0,
        ;
        lemma_index_in_range(rows, cols, r + 1, toward(c, limit, bias));
        let q = rr * cols + cc;
        assert(q < dest);
    }
    lemma_scan_rows_still(q1, rows, cols, frame, r, 0, d, None);
    assert(pair_at(frame_result(cells, rows, cols, frame, d, None).cells, (r + 1) * cols + toward(c, limit, bias), x, under, y));
}

} // verus!
