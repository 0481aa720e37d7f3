//! Text layout of a board: fixed-width cells, `|` between column groups and a
//! horizontal rule between row groups.
use vstd::prelude::*;
use crate::grid::{candidates_text, lemma_cell_size, Grid};

verus! {

/// `n` copies of the character `c`.
pub open spec fn repeat_char(c: char, n: int) -> Seq<char> {
    Seq::new(if n < 0 { 0 } else { n as nat }, |k: int| c)
}

/// The largest number of candidates among the first `n` cells.
pub open spec fn max_size(g: Grid, n: int) -> nat
    decreases n,
{
    if n <= 0 {
        0
    } else {
        let m = max_size(g, n - 1);
        if g.size(n - 1) > m { g.size(n - 1) } else { m }
    }
}

/// Width of a cell field: one more than the largest cell, or two when every
/// cell is full (full cells show as a blank).
pub open spec fn field_width(g: Grid) -> int {
    if max_size(g, 81) == 9 { 2 } else { 1 + max_size(g, 81) as int }
}

/// What cell `c` shows: a blank when all nine digits are possible, else its candidates.
pub open spec fn shown(g: Grid, c: int) -> Seq<char> {
    if g.size(c) == 9 { seq![' '] } else { candidates_text(g, c, 9) }
}

/// Cell `c` shown left-aligned in a field of width `w`.
pub open spec fn field(g: Grid, c: int, w: int) -> Seq<char> {
    shown(g, c) + repeat_char(' ', w - shown(g, c).len())
}

/// What goes between column `k - 1` and column `k` of a row.
pub open spec fn col_sep(k: int) -> Seq<char> {
    if k == 3 || k == 6 { seq![' ', '|', ' '] } else { seq![' '] }
}

/// The first `n` fields of row `r`, with their separators.
pub open spec fn row_text(g: Grid, r: int, w: int, n: int) -> Seq<char>
    decreases n,
{
    if n <= 0 {
        Seq::empty()
    } else if n == 1 {
        field(g, 9 * r, w)
    } else {
        row_text(g, r, w, n - 1) + col_sep(n - 1) + field(g, 9 * r + n - 1, w)
    }
}

/// The rule between row groups, for fields of width `w`.
pub open spec fn rule(w: int) -> Seq<char> {
    let part = repeat_char('-', 3 * (w + 1));
    part + seq!['+', '-'] + part + seq!['+', '-'] + part
}

/// What goes between row `k - 1` and row `k` of the board.
pub open spec fn row_sep(w: int, k: int) -> Seq<char> {
    if k == 3 || k == 6 { seq!['\n'] + rule(w) + seq!['\n'] } else { seq!['\n'] }
}

/// The first `n` rows of the board, with their separators.
pub open spec fn board_text(g: Grid, w: int, n: int) -> Seq<char>
    decreases n,
{
    if n <= 0 {
        Seq::empty()
    } else if n == 1 {
        row_text(g, 0, w, 9)
    } else {
        board_text(g, w, n - 1) + row_sep(w, n - 1) + row_text(g, n - 1, w, 9)
    }
}

/// The whole board as text.
pub open spec fn render_spec(g: Grid) -> Seq<char> {
    board_text(g, field_width(g), 9)
}

/// Appends `n` copies of the one-character text `t`.
fn append_repeat(out: &mut String, t: &str, n: usize)
    requires
        t@.len() == 1,
    ensures
        final(out)@ == old(out)@ + repeat_char(t@[0], n as int),
{
    let mut k: usize = 0;
    while k < n
        invariant
            k <= n,
            t@.len() == 1,
            out@ == old(out)@ + repeat_char(t@[0], k as int),
        decreases n - k,
    {
        out.append(t);
        k = k + 1;
        assert(out@ =~= old(out)@ + repeat_char(t@[0], k as int));
    }
}

/// The width of the fields: one more than the largest cell, two when all are full.
fn width(g: &Grid) -> (r: usize)
    requires
        g.wf(),
    ensures
        r == field_width(*g),
        1 <= r <= 9,
{
    let mut m: usize = 0;
    let mut c: usize = 0;
    while c < 81
        invariant
            c <= 81,
            g.wf(),
            m == max_size(*g, c as int),
            m <= 9,
        decreases 81 - c,
    {
        let n = g.count(c);
        proof {
            lemma_cell_size(g, c as int);
        }
        if n > m {
            m = n;
        }
        c = c + 1;
    }
    if m == 9 { 2 } else { 1 + m }
}

/// Appends the field of cell `c`.
fn push_field(g: &Grid, c: usize, w: usize, out: &mut String)
    requires
        g.wf(),
        c < 81,
        1 <= w <= 9,
    ensures
        final(out)@ == old(out)@ + field(*g, c as int, w as int),
{
    proof {
        reveal_strlit(" ");
        lemma_text_len(*g, c as int, 9);
    }
    let n = g.count(c);
    if n == 9 {
        out.append(" ");
        append_repeat(out, " ", w - 1);
    } else {
        let t = g.at(c);
        out.append(t.as_str());
        if n < w {
            append_repeat(out, " ", w - n);
        }
    }
    assert(out@ =~= old(out)@ + field(*g, c as int, w as int));
}

/// The text of a cell has one character per candidate.
proof fn lemma_text_len(g: Grid, c: int, n: int)
    requires
        g.wf(),
        0 <= c < 81,
        0 <= n <= 9,
    ensures
        candidates_text(g, c, n).len() == crate::grid::trues(g.cell(c).subrange(0, n)),
        n == 9 ==> candidates_text(g, c, n).len() == g.size(c),
    decreases n,
{
    if n > 0 {
        lemma_text_len(g, c, n - 1);
        assert(g.cell(c).subrange(0, n).drop_last() =~= g.cell(c).subrange(0, n - 1));
    }
    assert(g.cell(c).subrange(0, 9) =~= g.cell(c));
}

impl Grid {
    /// The board as text: each cell left-aligned in a field one wider than the
    /// largest cell (two when every cell is full), a full cell shown blank,
    /// `" | "` between column groups, and a rule of dashes between row groups.
    pub fn to_string(&self) -> (r: String)
        requires
            self.wf(),
        ensures
            r@ == render_spec(*self),
    {
        let w = width(self);
        let mut out = String::new();
        let mut r: usize = 0;
        while r < 9
            invariant
                r <= 9,
                self.wf(),
                w == field_width(*self),
                1 <= w <= 9,
                out@ == board_text(*self, w as int, r as int),
            decreases 9 - r,
        {
            let ghost before = out@;
            proof {
                reveal_strlit("\n");
                reveal_strlit("-");
                reveal_strlit("+-");
            }
            if r > 0 {
                out.append("\n");
                if r == 3 || r == 6 {
                    append_repeat(&mut out, "-", 3 * (w + 1));
                    out.append("+-");
                    append_repeat(&mut out, "-", 3 * (w + 1));
                    out.append("+-");
                    append_repeat(&mut out, "-", 3 * (w + 1));
                    out.append("\n");
                }
                assert(out@ =~= before + row_sep(w as int, r as int));
            }
            let ghost start = out@;
            let mut k: usize = 0;
            while k < 9
                invariant
                    k <= 9,
                    r < 9,
                    self.wf(),
                    1 <= w <= 9,
                        out@ == start + row_text(*self, r as int, w as int, k as int),
                decreases 9 - k,
            {
                proof {
                    reveal_strlit(" ");
                    reveal_strlit(" | ");
                }
                if k > 0 {
                    if k == 3 || k == 6 {
                        out.append(" | ");
                    } else {
                        out.append(" ");
                    }
                }
                push_field(self, 9 * r + k, w, &mut out);
                assert(out@ =~= start + row_text(*self, r as int, w as int, k + 1));
                k = k + 1;
            }
            r = r + 1;
            assert(out@ =~= board_text(*self, w as int, r as int));
        }
        out
    }
}

} // verus!
