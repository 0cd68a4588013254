//! Building the animation's starting grid: random confetti in the upper
//! half, then the centered text stamped over it.
use vstd::prelude::*;
use crate::cell::{Bias, Cell, Color, Mobility, empty_cell};
use crate::chance::{coin_flip, random_below};
use crate::grid::{Grid, lemma_index_in_range, lemma_index_injective};
use crate::stepper::{count_falling, lemma_tally_none, lemma_tally_sub, lemma_tally_update};
use vstd::arithmetic::div_mod::{lemma_fundamental_div_mod, lemma_mod_pos_bound};
use crate::stencil::{place_center_text, stencil_at, text_lines};

verus! {

/// A piece of confetti that may stand in row `x` of a grid of `rows` rows:
/// falling, in the upper half, with a glyph and a color of the palettes.
pub open spec fn confetti(cell: Cell, x: int, rows: int, glyphs: Seq<char>, colors: Seq<Color>) -> bool {
    &&& x < rows / 2
    &&& cell.is_falling()
    &&& glyphs.contains(cell.glyph)
    &&& colors.contains(cell.color)
}

/// The confetti glyph palette.
pub open spec fn confetti_glyph_seq() -> Seq<char> {
    seq!['\u{2605}', '\u{2606}', '\u{2726}', '\u{2727}', '\u{2022}']
}

/// The confetti color palette.
pub open spec fn confetti_color_seq() -> Seq<Color> {
    seq![Color::Magenta, Color::Cyan, Color::Yellow, Color::Blue, Color::Green, Color::Red]
}

/// The glyphs confetti is drawn from.
pub fn confetti_glyphs() -> (v: Vec<char>)
    ensures
        v@ == confetti_glyph_seq(),
{
    let mut v: Vec<char> = Vec::new();
    v.push('\u{2605}');
    v.push('\u{2606}');
    v.push('\u{2726}');
    v.push('\u{2727}');
    v.push('\u{2022}');
    assert(v@ =~= seq!['\u{2605}', '\u{2606}', '\u{2726}', '\u{2727}', '\u{2022}']);
    v
}

/// The colors confetti is drawn from.
pub fn confetti_colors() -> (v: Vec<Color>)
    ensures
        v@ == confetti_color_seq(),
{
    let mut v: Vec<Color> = Vec::new();
    v.push(Color::Magenta);
    v.push(Color::Cyan);
    v.push(Color::Yellow);
    v.push(Color::Blue);
    v.push(Color::Green);
    v.push(Color::Red);
    assert(v@ =~= seq![Color::Magenta, Color::Cyan, Color::Yellow, Color::Blue, Color::Green, Color::Red]);
    v
}

/// One drawn piece of confetti: its position, the indices of its glyph and
/// color in the palettes, and its bias.
#[derive(Clone, Copy, Debug, PartialEq, Eq, Structural)]
pub struct Pick {
    pub row: usize,
    pub col: usize,
    pub glyph: usize,
    pub color: usize,
    pub bias: Bias,
}

/// `p` lies in the upper half of a `rows` by `cols` grid and indexes the palettes.
pub open spec fn pick_fits(p: Pick, rows: int, cols: int, glyphs: Seq<char>, colors: Seq<Color>) -> bool {
    &&& p.row < rows / 2
    &&& p.col < cols
    &&& p.glyph < glyphs.len()
    &&& p.color < colors.len()
}

/// The falling cell that `p` describes.
pub open spec fn piece(p: Pick, glyphs: Seq<char>, colors: Seq<Color>) -> Cell {
    Cell { glyph: glyphs[p.glyph as int], color: colors[p.color as int], mobility: Mobility::Falling(p.bias) }
}

/// `cells`, a `rows` by `cols` buffer, after each of `picks` in order has put
/// its piece at its position; a pick outside the grid or the palettes is
/// passed over.
pub open spec fn apply_picks(
    cells: Seq<Cell>,
    rows: int,
    cols: int,
    picks: Seq<Pick>,
    glyphs: Seq<char>,
    colors: Seq<Color>,
) -> Seq<Cell>
    decreases picks.len(),
{
    if picks.len() == 0 {
        cells
    } else {
        let prev = apply_picks(cells, rows, cols, picks.drop_last(), glyphs, colors);
        let p = picks.last();
        if p.row < rows && p.col < cols && p.glyph < glyphs.len() && p.color < colors.len() {
            prev.update(p.row * cols + p.col, piece(p, glyphs, colors))
        } else {
            prev
        }
    }
}

/// Puts the piece of each pick, in order, at its position; picks outside the
/// grid or the palettes are passed over.
pub fn place_confetti(grid: &mut Grid, picks: &Vec<Pick>, glyphs: &Vec<char>, colors: &Vec<Color>)
    requires
        old(grid).wf(),
    ensures
        final(grid).wf(),
        final(grid).rows == old(grid).rows,
        final(grid).cols == old(grid).cols,
        final(grid).cells@ == apply_picks(
            old(grid).cells@,
            old(grid).rows as int,
            old(grid).cols as int,
            picks@,
            glyphs@,
            colors@,
        ),
{
    let ghost g0 = *grid;
    let mut k: usize = 0;
    while k < picks.len()
        invariant
            grid.wf(),
            grid.rows == g0.rows,
            grid.cols == g0.cols,
            k <= picks@.len(),
            grid.cells@ == apply_picks(g0.cells@, g0.rows as int, g0.cols as int, picks@.take(k as int), glyphs@, colors@),
        decreases picks@.len() - k,
    {
        assert(picks@.take(k as int + 1).drop_last() =~= picks@.take(k as int));
        let p = picks[k];
        if p.glyph < glyphs.len() && p.color < colors.len() {
            grid.set(p.row, p.col, Cell::falling(glyphs[p.glyph], colors[p.color], p.bias));
        }
        k = k + 1;
    }
    assert(picks@.take(picks@.len() as int) =~= picks@);
}

/// Each cell after fitting picks is the one before or a piece of confetti.
proof fn lemma_picks_cells(
    cells: Seq<Cell>,
    rows: int,
    cols: int,
    picks: Seq<Pick>,
    glyphs: Seq<char>,
    colors: Seq<Color>,
)
    requires
        cells.len() == rows * cols,
        forall|k: int| 0 <= k < picks.len() ==> pick_fits(#[trigger] picks[k], rows, cols, glyphs, colors),
    ensures
        apply_picks(cells, rows, cols, picks, glyphs, colors).len() == cells.len(),
        forall|x: int, y: int|
            0 <= x < rows && 0 <= y < cols ==> {
                let a = #[trigger] apply_picks(cells, rows, cols, picks, glyphs, colors)[x * cols + y];
                a == cells[x * cols + y] || confetti(a, x, rows, glyphs, colors)
            },
    decreases picks.len(),
{
    if picks.len() > 0 {
        let rest = picks.drop_last();
        assert forall|k: int| 0 <= k < rest.len() implies pick_fits(#[trigger] rest[k], rows, cols, glyphs, colors) by {
            assert(rest[k] == picks[k]);
        }
        lemma_picks_cells(cells, rows, cols, rest, glyphs, colors);
        let p = picks.last();
        assert(pick_fits(picks[picks.len() - 1], rows, cols, glyphs, colors));
        lemma_index_in_range(rows, cols, p.row as int, p.col as int);
        assert(glyphs[p.glyph as int] == glyphs[p.glyph as int]);
        assert forall|x: int, y: int|
            0 <= x < rows && 0 <= y < cols implies {
                let a = #[trigger] apply_picks(cells, rows, cols, picks, glyphs, colors)[x * cols + y];
                a == cells[x * cols + y] || confetti(a, x, rows, glyphs, colors)
            } by {
            lemma_index_in_range(rows, cols, x, y);
            let prev = apply_picks(cells, rows, cols, rest, glyphs, colors);
            if x * cols + y == p.row * cols + p.col {
                lemma_index_injective(cols, x, y, p.row as int, p.col as int);
                assert(glyphs.contains(glyphs[p.glyph as int]));
                assert(colors.contains(colors[p.color as int]));
            } else {
                assert(prev[x * cols + y] == prev[x * cols + y]);
            }
        }
    }
}

/// Fitting picks add at most one falling cell each.
proof fn lemma_picks_count(
    cells: Seq<Cell>,
    rows: int,
    cols: int,
    picks: Seq<Pick>,
    glyphs: Seq<char>,
    colors: Seq<Color>,
)
    requires
        cells.len() == rows * cols,
        forall|k: int| 0 <= k < picks.len() ==> pick_fits(#[trigger] picks[k], rows, cols, glyphs, colors),
    ensures
        count_falling(apply_picks(cells, rows, cols, picks, glyphs, colors)) <= count_falling(cells) + picks.len(),
    decreases picks.len(),
{
    if picks.len() > 0 {
        let rest = picks.drop_last();
        assert forall|k: int| 0 <= k < rest.len() implies pick_fits(#[trigger] rest[k], rows, cols, glyphs, colors) by {
            assert(rest[k] == picks[k]);
        }
        lemma_picks_count(cells, rows, cols, rest, glyphs, colors);
        lemma_picks_cells(cells, rows, cols, rest, glyphs, colors);
        let p = picks.last();
        assert(pick_fits(picks[picks.len() - 1], rows, cols, glyphs, colors));
        lemma_index_in_range(rows, cols, p.row as int, p.col as int);
        let prev = apply_picks(cells, rows, cols, rest, glyphs, colors);
        lemma_tally_update(prev, p.row * cols + p.col, piece(p, glyphs, colors), |x: Cell| x.is_falling());
    }
}

/// Drops `count` pieces of confetti at random positions of the upper half,
/// each with a random glyph, color and bias; a later piece may land on an
/// earlier one. A grid with no upper half or no column is left as it was.
/// Whatever is drawn, the result is that of `count` fitting picks placed in
/// order, so at most `count` falling cells are added, and at least one piece
/// stands in the grid when `count` is not zero.
pub fn seed_confetti(grid: &mut Grid, count: usize, glyphs: &Vec<char>, colors: &Vec<Color>)
    requires
        old(grid).wf(),
        glyphs@.len() > 0,
        colors@.len() > 0,
    ensures
        final(grid).wf(),
        final(grid).rows == old(grid).rows,
        final(grid).cols == old(grid).cols,
        old(grid).rows >= 2 && old(grid).cols > 0 ==> exists|picks: Seq<Pick>| #![trigger picks.len()] {
            &&& picks.len() == count
            &&& forall|k: int| 0 <= k < picks.len() ==> pick_fits(#[trigger] picks[k], old(grid).rows as int, old(grid).cols as int, glyphs@, colors@)
            &&& final(grid).cells@ == apply_picks(old(grid).cells@, old(grid).rows as int, old(grid).cols as int, picks, glyphs@, colors@)
        },
        forall|x: int, y: int|
            #![trigger final(grid).at(x, y)]
            final(grid).in_bounds(x, y) ==> final(grid).at(x, y) == old(grid).at(x, y) || confetti(
                final(grid).at(x, y),
                x,
                old(grid).rows as int,
                glyphs@,
                colors@,
            ),
        count_falling(final(grid).cells@) <= count_falling(old(grid).cells@) + count,
        count > 0 && old(grid).rows >= 2 && old(grid).cols > 0 ==> exists|x: int, y: int|
            final(grid).in_bounds(x, y) && #[trigger] confetti(final(grid).at(x, y), x, old(grid).rows as int, glyphs@, colors@),
        old(grid).rows < 2 || old(grid).cols == 0 ==> final(grid).cells@ == old(grid).cells@,
{
    let ghost g0 = *grid;
    let half = grid.rows / 2;
    let cols = grid.cols;
    if half == 0 || cols == 0 {
        return;
    }
    let mut picks: Vec<Pick> = Vec::new();
    while picks.len() < count
        invariant
            picks@.len() <= count,
            half == g0.rows / 2,
            half > 0,
            cols > 0,
            glyphs@.len() > 0,
            colors@.len() > 0,
            cols == g0.cols,
            forall|k: int| 0 <= k < picks@.len() ==> pick_fits(#[trigger] picks@[k], g0.rows as int, g0.cols as int, glyphs@, colors@),
        decreases count - picks@.len(),
    {
        let row = random_below(half);
        let col = random_below(cols);
        let glyph = random_below(glyphs.len());
        let color = random_below(colors.len());
        let bias = if coin_flip() {
            Bias::Right
        } else {
            Bias::Left
        };
        picks.push(Pick { row, col, glyph, color, bias });
    }
    place_confetti(grid, &picks, glyphs, colors);
    proof {
        let rows = g0.rows as int;
        let ps = picks@;
        lemma_picks_cells(g0.cells@, rows, cols as int, ps, glyphs@, colors@);
        lemma_picks_count(g0.cells@, rows, cols as int, ps, glyphs@, colors@);
        assert forall|x: int, y: int|
            #![trigger grid.at(x, y)]
            grid.in_bounds(x, y) implies grid.at(x, y) == g0.at(x, y) || confetti(grid.at(x, y), x, rows, glyphs@, colors@) by {
            lemma_index_in_range(rows, cols as int, x, y);
            assert(apply_picks(g0.cells@, rows, cols as int, ps, glyphs@, colors@)[x * cols + y] == grid.at(x, y));
        }
        if count > 0 {
            let p = ps.last();
            assert(pick_fits(ps[ps.len() - 1], rows, cols as int, glyphs@, colors@));
            lemma_index_in_range(rows, cols as int, p.row as int, p.col as int);
            let rest = ps.drop_last();
            assert forall|k: int| 0 <= k < rest.len() implies pick_fits(#[trigger] rest[k], rows, cols as int, glyphs@, colors@) by {
                assert(rest[k] == ps[k]);
            }
            lemma_picks_cells(g0.cells@, rows, cols as int, rest, glyphs@, colors@);
            let prev = apply_picks(g0.cells@, rows, cols as int, rest, glyphs@, colors@);
            assert(grid.cells@ == prev.update(p.row * cols + p.col, piece(p, glyphs@, colors@)));
            assert(grid.at(p.row as int, p.col as int) == piece(p, glyphs@, colors@));
            assert(glyphs@.contains(glyphs@[p.glyph as int]));
            assert(colors@.contains(colors@[p.color as int]));
            assert(confetti(grid.at(p.row as int, p.col as int), p.row as int, rows, glyphs@, colors@));
        }
        assert(ps.len() == ps.len());
    }
}

/// The starting grid of the animation: a `rows` by `cols` grid seeded with
/// one piece of confetti per ten cells, then `text` stamped centered in
/// `text_color`. Under each non-whitespace character of the text stands a
/// fixed cell; everywhere else the grid holds what the drawn picks, placed in
/// order on an empty grid, left there. At most one cell in ten is falling.
pub fn prepare_grid(rows: usize, cols: usize, text: &str, text_color: Color) -> (g: Grid)
    requires
        rows * cols <= usize::MAX,
    ensures
        g.wf(),
        g.rows == rows,
        g.cols == cols,
        forall|x: int, y: int|
            #![trigger g.at(x, y)]
            g.in_bounds(x, y) ==> match stencil_at(text_lines(text@), rows as int, cols as int, x, y) {
                Some(ch) => g.at(x, y) == Cell { glyph: ch, color: text_color, mobility: Mobility::Fixed },
                None => g.at(x, y) == empty_cell() || confetti(
                    g.at(x, y),
                    x,
                    rows as int,
                    confetti_glyph_seq(),
                    confetti_color_seq(),
                ),
            },
        rows >= 2 && cols > 0 ==> exists|picks: Seq<Pick>| #![trigger picks.len()] {
            &&& picks.len() == rows * cols / 10
            &&& forall|k: int| 0 <= k < picks.len() ==> pick_fits(#[trigger] picks[k], rows as int, cols as int, confetti_glyph_seq(), confetti_color_seq())
            &&& forall|x: int, y: int|
                #![trigger g.at(x, y)]
                g.in_bounds(x, y) ==> g.at(x, y) == match stencil_at(text_lines(text@), rows as int, cols as int, x, y) {
                    Some(ch) => Cell { glyph: ch, color: text_color, mobility: Mobility::Fixed },
                    None => apply_picks(
                        Seq::new((rows * cols) as nat, |k: int| empty_cell()),
                        rows as int,
                        cols as int,
                        picks,
                        confetti_glyph_seq(),
                        confetti_color_seq(),
                    )[x * cols + y],
                }
        },
        count_falling(g.cells@) <= rows * cols / 10,
{
    let mut grid = Grid::new(rows, cols);
    let glyphs = confetti_glyphs();
    let colors = confetti_colors();
    let ghost blank = grid;
    seed_confetti(&mut grid, rows * cols / 10, &glyphs, &colors);
    let ghost seeded = grid;
    place_center_text(&mut grid, text, text_color);
    proof {
        let n = (rows * cols) as int;
        let f = |x: Cell| x.is_falling();
        lemma_tally_none(blank.cells@, f);
        assert forall|i: int| 0 <= i < n && f(#[trigger] grid.cells@[i]) implies f(seeded.cells@[i]) by {
            let c = cols as int;
            lemma_fundamental_div_mod(i, c);
            lemma_mod_pos_bound(i, c);
            let x = i / c;
            let y = i % c;
            assert(0 <= x < rows) by (nonlinear_arith)
                requires
                    i == c * x + y,
                    0 <= y < c,
                    0 <= i < n,
                    n == rows * c,
            ;
            assert(x * c + y == i) by (nonlinear_arith)
                requires
                    i == c * x + y,
            ;
            assert(grid.at(x, y) == grid.cells@[i]);
        }
        lemma_tally_sub(seeded.cells@, grid.cells@, f);
        if rows >= 2 && cols > 0 {
            let picks = choose|picks: Seq<Pick>| #![trigger picks.len()] {
                &&& picks.len() == rows * cols / 10
                &&& forall|k: int| 0 <= k < picks.len() ==> pick_fits(#[trigger] picks[k], rows as int, cols as int, glyphs@, colors@)
                &&& seeded.cells@ == apply_picks(blank.cells@, rows as int, cols as int, picks, glyphs@, colors@)
            };
            assert forall|x: int, y: int|
                #![trigger grid.at(x, y)]
                grid.in_bounds(x, y) implies grid.at(x, y) == match stencil_at(text_lines(text@), rows as int, cols as int, x, y) {
                    Some(ch) => Cell { glyph: ch, color: text_color, mobility: Mobility::Fixed },
                    None => apply_picks(
                        Seq::new((rows * cols) as nat, |k: int| empty_cell()),
                        rows as int,
                        cols as int,
                        picks,
                        glyphs@,
                        colors@,
                    )[x * cols + y],
                } by {
                assert(seeded.at(x, y) == seeded.cells@[x * cols + y]);
            }
            assert(picks.len() == picks.len());
        }
    }
    grid
}

} // verus!
