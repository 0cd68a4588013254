//! Stamping an immovable text block into the grid, centered.
use vstd::prelude::*;
use vstd::string::*;
use crate::cell::{Cell, Color, Mobility};
use crate::grid::Grid;

verus! {

/// `s` cut at every line feed; a text ending in a line feed ends with an empty piece.
pub open spec fn pieces(s: Seq<char>) -> Seq<Seq<char>>
    decreases s.len(),
{
    if s.len() == 0 {
        seq![Seq::empty()]
    } else {
        let p = pieces(s.drop_last());
        if s.last() == '\n' {
            p.push(Seq::empty())
        } else {
            p.update(p.len() - 1, p.last().push(s.last()))
        }
    }
}

/// `l` without one trailing carriage return.
pub open spec fn strip_cr(l: Seq<char>) -> Seq<char> {
    if l.len() > 0 && l.last() == '\r' {
        l.drop_last()
    } else {
        l
    }
}

/// The lines of `s`: ended by `\n` or `\r\n`, the last ending optional.
pub open spec fn text_lines(s: Seq<char>) -> Seq<Seq<char>> {
    let p = pieces(s);
    let n = if p.last().len() == 0 {
        p.len() - 1
    } else {
        p.len() as int
    };
    Seq::new(n as nat, |i: int| if i < p.len() - 1 { strip_cr(p[i]) } else { p[i] })
}

/// Unicode's White_Space property.
pub open spec fn is_whitespace(ch: char) -> bool {
    ||| '\t' <= ch <= '\r'
    ||| ch == ' '
    ||| ch == '\u{85}'
    ||| ch == '\u{a0}'
    ||| ch == '\u{1680}'
    ||| '\u{2000}' <= ch <= '\u{200a}'
    ||| ch == '\u{2028}'
    ||| ch == '\u{2029}'
    ||| ch == '\u{202f}'
    ||| ch == '\u{205f}'
    ||| ch == '\u{3000}'
}

/// The offset that centers `len` within `total`, an odd leftover going to
/// the near side; 0 where it does not fit.
pub open spec fn center_offset(total: int, len: int) -> int {
    if len < total {
        (total - len + 1) / 2
    } else {
        0
    }
}

/// The length of the longest of `lines`.
pub open spec fn block_width(lines: Seq<Seq<char>>) -> nat
    decreases lines.len(),
{
    if lines.len() == 0 {
        0
    } else {
        let w = block_width(lines.drop_last());
        if lines.last().len() > w {
            lines.last().len()
        } else {
            w
        }
    }
}

/// The character of the block `lines`, centered as a whole, that lands on
/// `(x, y)` of a `rows` by `cols` grid, if that character is not whitespace.
pub open spec fn stencil_at(lines: Seq<Seq<char>>, rows: int, cols: int, x: int, y: int) -> Option<char> {
    let i = x - center_offset(rows, lines.len() as int);
    if 0 <= i < lines.len() {
        let j = y - center_offset(cols, block_width(lines) as int);
        if 0 <= j < lines[i].len() && !is_whitespace(lines[i][j]) {
            Some(lines[i][j])
        } else {
            None
        }
    } else {
        None
    }
}

/// The pieces of a text are never fewer than one.
proof fn lemma_pieces_nonempty(s: Seq<char>)
    ensures
        pieces(s).len() >= 1,
    decreases s.len(),
{
    if s.len() > 0 {
        lemma_pieces_nonempty(s.drop_last());
    }
}

/// Whether `ch` is whitespace, as Unicode's White_Space property says.
pub fn is_blank(ch: char) -> (r: bool)
    ensures
        r == is_whitespace(ch),
{
    ('\t' <= ch && ch <= '\r') || ch == ' ' || ch == '\u{85}' || ch == '\u{a0}' || ch == '\u{1680}'
        || ('\u{2000}' <= ch && ch <= '\u{200a}') || ch == '\u{2028}' || ch == '\u{2029}'
        || ch == '\u{202f}' || ch == '\u{205f}' || ch == '\u{3000}'
}

/// The lines of `text`, each as its characters.
pub fn split_lines(text: &str) -> (lines: Vec<Vec<char>>)
    ensures
        lines@.len() == text_lines(text@).len(),
        forall|i: int| 0 <= i < lines@.len() ==> #[trigger] lines@[i]@ == text_lines(text@)[i],
{
    let n = text.unicode_len();
    let ghost s = text@;
    let mut done: Vec<Vec<char>> = Vec::new();
    let mut cur: Vec<char> = Vec::new();
    let mut i: usize = 0;
    proof {
        assert(s.subrange(0, 0) =~= Seq::<char>::empty());
    }
    while i < n
        invariant
            s == text@,
            n == s.len(),
            i <= n,
            pieces(s.subrange(0, i as int)).len() == done@.len() + 1,
            cur@ == pieces(s.subrange(0, i as int)).last(),
            forall|k: int| 0 <= k < done@.len() ==> #[trigger] done@[k]@ == strip_cr(pieces(s.subrange(0, i as int))[k]),
        decreases n - i,
    {
        let ch = text.get_char(i);
        let ghost p = pieces(s.subrange(0, i as int));
        proof {
            assert(s.subrange(0, i as int + 1).drop_last() =~= s.subrange(0, i as int));
            assert(s.subrange(0, i as int + 1).last() == ch);
            lemma_pieces_nonempty(s.subrange(0, i as int));
        }
        if ch == '\n' {
            let len = cur.len();
            if len > 0 && cur[len - 1] == '\r' {
                cur.pop();
                proof {
                    assert(cur@ =~= strip_cr(p.last()));
                }
            }
            done.push(cur);
            cur = Vec::new();
            proof {
                let q = pieces(s.subrange(0, i as int + 1));
                assert(q == p.push(Seq::empty()));
                assert forall|k: int| 0 <= k < done@.len() implies #[trigger] done@[k]@ == strip_cr(q[k]) by {}
                assert(cur@ =~= q.last());
            }
        } else {
            cur.push(ch);
            proof {
                let q = pieces(s.subrange(0, i as int + 1));
                assert(q == p.update(p.len() - 1, p.last().push(ch)));
                assert(cur@ =~= q.last());
                assert forall|k: int| 0 <= k < done@.len() implies #[trigger] done@[k]@ == strip_cr(q[k]) by {}
            }
        }
        i = i + 1;
    }
    proof {
        assert(s.subrange(0, n as int) =~= s);
    }
    if cur.len() > 0 {
        done.push(cur);
    }
    proof {
        let t = text_lines(s);
        assert forall|k: int| 0 <= k < done@.len() implies #[trigger] done@[k]@ == t[k] by {}
    }
    done
}

/// `(x, y)` receives a character of the block among the first `li` lines,
/// or among the first `j` characters of line `li`.
spec fn stamped(lines: Seq<Seq<char>>, rows: int, cols: int, li: int, j: int, x: int, y: int) -> bool {
    let i = x - center_offset(rows, lines.len() as int);
    &&& stencil_at(lines, rows, cols, x, y) is Some
    &&& (i < li || (i == li && y - center_offset(cols, block_width(lines) as int) < j))
}

/// Stamps the text block, centered as a whole, into the grid: each non-whitespace
/// character becomes a fixed cell of `color`; positions under whitespace, and
/// all others, keep what they held. A block taller or wider than the grid is
/// anchored at its top or left edge and cut off.
pub fn place_center_text(grid: &mut Grid, text: &str, color: Color)
    requires
        old(grid).wf(),
    ensures
        final(grid).wf(),
        final(grid).rows == old(grid).rows,
        final(grid).cols == old(grid).cols,
        forall|x: int, y: int|
            #![trigger final(grid).at(x, y)]
            final(grid).in_bounds(x, y) ==> final(grid).at(x, y) == match stencil_at(
                text_lines(text@),
                old(grid).rows as int,
                old(grid).cols as int,
                x,
                y,
            ) {
                Some(ch) => Cell { glyph: ch, color, mobility: Mobility::Fixed },
                None => old(grid).at(x, y),
            },
{
    let ghost g0 = *grid;
    let lines = split_lines(text);
    let ghost ls = text_lines(text@);
    let rows = grid.rows;
    let cols = grid.cols;
    let nl = lines.len();
    let start_row: usize = if nl < rows { (rows - nl - 1) / 2 + 1 } else { 0 };
    let mut width: usize = 0;
    let mut k: usize = 0;
    while k < nl
        invariant
            nl == lines@.len(),
            nl == ls.len(),
            forall|m: int| 0 <= m < lines@.len() ==> #[trigger] lines@[m]@ == ls[m],
            k <= nl,
            width == block_width(ls.take(k as int)),
        decreases nl - k,
    {
        assert(ls.take(k as int + 1).drop_last() =~= ls.take(k as int));
        if lines[k].len() > width {
            width = lines[k].len();
        }
        k = k + 1;
    }
    assert(ls.take(nl as int) =~= ls);
    let start_col: usize = if width < cols { (cols - width - 1) / 2 + 1 } else { 0 };
    let mut li: usize = 0;
    while li < nl
        invariant
            grid.wf(),
            grid.rows == rows,
            grid.cols == cols,
            rows == g0.rows,
            cols == g0.cols,
            nl == lines@.len(),
            nl == ls.len(),
            forall|k: int| 0 <= k < lines@.len() ==> #[trigger] lines@[k]@ == ls[k],
            start_row == center_offset(rows as int, nl as int),
            start_row <= rows,
            start_col == center_offset(cols as int, block_width(ls) as int),
            start_col <= cols,
            li <= nl,
            forall|x: int, y: int|
                #![trigger grid.at(x, y)]
                grid.in_bounds(x, y) ==> grid.at(x, y) == if stamped(ls, rows as int, cols as int, li as int, 0, x, y) {
                    Cell { glyph: stencil_at(ls, rows as int, cols as int, x, y)->Some_0, color, mobility: Mobility::Fixed }
                } else {
                    g0.at(x, y)
                },
        decreases nl - li,
    {
        let len = lines[li].len();
        let mut j: usize = 0;
        while j < len
            invariant
                grid.wf(),
                grid.rows == rows,
                grid.cols == cols,
                rows == g0.rows,
                cols == g0.cols,
                nl == lines@.len(),
                nl == ls.len(),
                forall|k: int| 0 <= k < lines@.len() ==> #[trigger] lines@[k]@ == ls[k],
                start_row == center_offset(rows as int, nl as int),
                start_row <= rows,
                li < nl,
                len == ls[li as int].len(),
                start_col == center_offset(cols as int, block_width(ls) as int),
                start_col <= cols,
                j <= len,
                forall|x: int, y: int|
                    #![trigger grid.at(x, y)]
                    grid.in_bounds(x, y) ==> grid.at(x, y) == if stamped(ls, rows as int, cols as int, li as int, j as int, x, y) {
                        Cell { glyph: stencil_at(ls, rows as int, cols as int, x, y)->Some_0, color, mobility: Mobility::Fixed }
                    } else {
                        g0.at(x, y)
                    },
            decreases len - j,
        {
            let ch = lines[li][j];
            assert(ch == ls[li as int][j as int]);
            let ghost before = *grid;
            if !is_blank(ch) && li < rows - start_row && j < cols - start_col {
                grid.set(start_row + li, start_col + j, Cell::fixed(ch, color));
            }
            proof {
                assert forall|x: int, y: int|
                    #![trigger grid.at(x, y)]
                    grid.in_bounds(x, y) implies grid.at(x, y) == if stamped(ls, rows as int, cols as int, li as int, j as int + 1, x, y) {
                        Cell { glyph: stencil_at(ls, rows as int, cols as int, x, y)->Some_0, color, mobility: Mobility::Fixed }
                    } else {
                        g0.at(x, y)
                    } by {
                }
            }
            j = j + 1;
        }
        proof {
            assert forall|x: int, y: int|
                #![trigger grid.at(x, y)]
                grid.in_bounds(x, y) implies grid.at(x, y) == if stamped(ls, rows as int, cols as int, li as int + 1, 0, x, y) {
                    Cell { glyph: stencil_at(ls, rows as int, cols as int, x, y)->Some_0, color, mobility: Mobility::Fixed }
                } else {
                    g0.at(x, y)
                } by {
                assert(stamped(ls, rows as int, cols as int, li as int + 1, 0, x, y) == stamped(ls, rows as int, cols as int, li as int, len as int, x, y));
            }
        }
        li = li + 1;
    }
    proof {
        assert forall|x: int, y: int|
            #![trigger grid.at(x, y)]
            grid.in_bounds(x, y) implies grid.at(x, y) == match stencil_at(ls, rows as int, cols as int, x, y) {
                Some(ch) => Cell { glyph: ch, color, mobility: Mobility::Fixed },
                None => g0.at(x, y),
            } by {
        }
    }
}

} // verus!
