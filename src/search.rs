//! Depth-first search over boards: branch on the cell with the fewest
//! candidates, one copy of the board per branch.
use vstd::prelude::*;
use crate::geometry::{is_peer, lemma_unit_cells_in_range, units_of};
use crate::grid::{
    agrees, char_digit, digit_char, is_cell_char, is_solution, lemma_cell_size, lemma_flags_equal,
    lemma_refines_total, lemma_refines_trans, parsed, strip_newlines, unit_holds, Grid, ParseError,
};

verus! {

/// A candidate of each cell, read from the candidate flags `f`: on a solved
/// board, the digit that each cell holds.
pub open spec fn values_of(f: Seq<bool>) -> Seq<int> {
    Seq::new(81, |c: int| choose|d: int| 1 <= d <= 9 && #[trigger] f[9 * c + d - 1])
}

/// The digit held by each cell of a solved board.
pub open spec fn values(g: Grid) -> Seq<int> {
    values_of(g.flags())
}

/// A consistent board whose cells each hold one digit spells a solution, and admits it.
pub proof fn lemma_solved_is_solution(g: Grid)
    requires
        g.consistent(),
        g.solved(),
    ensures
        is_solution(values(g)),
        g.admits(values(g)),
{
    let s = values(g);
    assert forall|c: int| 0 <= c < 81 implies g.only(c, #[trigger] s[c]) by {
        assert(g.size(c) == 1);
        assert(g.nonempty(c));
        let d = choose|d: int| 1 <= d <= 9 && #[trigger] g.has(c, d);
        assert(1 <= d <= 9 && g.flags()[9 * c + d - 1]);
        lemma_cell_size(&g, c);
        assert(g.has(c, s[c]));
    }
    assert forall|c: int, p: int| 0 <= c < 81 && #[trigger] is_peer(c, p) implies s[c] != s[p] by {
        assert(g.only(c, s[c]));
        assert(g.settled_clean(c));
        assert(g.only(p, s[p]));
    }
    assert forall|c: int, u: int, d: int| 0 <= c < 81 && 0 <= u < 3 && 1 <= d <= 9 implies
        #[trigger] unit_holds(s, c, u, d) by {
        assert(g.covered(c, u, d));
        let k = choose|k: int| 0 <= k < 9 && #[trigger] g.has(units_of(c)[u][k], d);
        let x = units_of(c)[u][k];
        lemma_unit_cells_in_range(c, u, k);
        assert(g.only(x, s[x]));
        assert(s[x] == d);
    }
}

/// The digits of a solved board, one character per cell, row by row.
pub open spec fn solved_text(g: Grid) -> Seq<char> {
    Seq::new(81, |c: int| digit_char(values(g)[c]))
}

/// A text without newlines is its own stripped form.
proof fn lemma_strip_plain(t: Seq<char>)
    requires
        forall|k: int| 0 <= k < t.len() ==> #[trigger] t[k] != '\n',
    ensures
        strip_newlines(t) == t,
    decreases t.len(),
{
    if t.len() > 0 {
        lemma_strip_plain(t.drop_last());
        assert(t.drop_last() + seq![t.last()] =~= t);
    }
}

/// Reading back the digits of a solved, consistent board gives that same board.
pub proof fn lemma_solved_text_round_trip(g: Grid, r: Result<Grid, ParseError>)
    requires
        g.consistent(),
        g.solved(),
        parsed(solved_text(g), r),
    ensures
        r is Ok,
        r->Ok_0.flags() == g.flags(),
{
    let t = solved_text(g);
    let v = values(g);
    lemma_solved_is_solution(g);
    assert forall|k: int| 0 <= k < 81 implies #[trigger] g.only(k, v[k]) by {
        assert(g.has(k, v[k]));
        assert(g.size(k) == 1);
        lemma_cell_size(&g, k);
    }
    assert forall|k: int| 0 <= k < 81 implies char_digit(#[trigger] t[k]) == v[k] && t[k] != '0' && is_cell_char(t[k]) && t[k] != '\n' by {
        assert(1 <= v[k] <= 9);
    }
    lemma_strip_plain(t);
    assert(agrees(v, t));
    assert(is_solution(v) && agrees(v, t));
    assert(!exists|k: int| 0 <= k < 81 && !is_cell_char(#[trigger] t[k]));
    if let Err(e) = r {
        match e {
            ParseError::BadLength => {},
            ParseError::BadCharacter => {},
            ParseError::Contradiction => {},
        }
    }
    assert(r is Ok);
    let h = r->Ok_0;
    assert(strip_newlines(t) == t);
    assert forall|x: int| 0 <= x < 729 implies #[trigger] h.flags()[x] == g.flags()[x] by {
        let (c, d) = (x / 9, x % 9 + 1);
        assert(0 <= c < 81);
        assert(t[c] != '0');
        assert(g.only(c, v[c]));
        assert(h.only(c, char_digit(t[c])));
        assert(h.has(c, d) == g.has(c, d));
    }
    assert(h.flags() =~= g.flags());
}

/// A puzzle text with every cell given reads as a solved board, which the
/// search hands back as it is.
pub proof fn lemma_complete_puzzle_unchanged(input: Seq<char>, g: Grid, out: Option<Grid>)
    requires
        parsed(input, Ok(g)),
        forall|k: int| 0 <= k < 81 ==> #[trigger] strip_newlines(input)[k] != '0',
        searched(&g, out),
    ensures
        g.solved(),
        out is Some,
        out->Some_0.flags() == g.flags(),
{
}

/// What a search from `grid` gives: a solved board that refines it (a solution
/// of the puzzle when `grid` is consistent), the board itself when already
/// solved, and nothing only where no solution agrees with `grid`.
pub open spec fn searched(grid: &Grid, r: Option<Grid>) -> bool {
    &&& r is Some ==> {
        let g = r->Some_0;
        &&& g.wf()
        &&& g.solved()
        &&& g.refines(grid)
        &&& grid.consistent() ==> g.consistent() && is_solution(values(g)) && grid.admits(values(g))
    }
    &&& grid.solved() ==> r is Some && r->Some_0.flags() == grid.flags()
    &&& r is None ==> forall|s: Seq<int>| #[trigger] is_solution(s) ==> !grid.admits(s)
}

/// Narrowing a cell with two or more candidates to one lowers the board's total.
proof fn lemma_branch_smaller(grid: &Grid, branch: &Grid, c: int, e: int)
    requires
        grid.wf(),
        branch.wf(),
        branch.refines(grid),
        0 <= c < 81,
        1 <= e <= 9,
        grid.has(c, e),
        grid.size(c) >= 2,
        forall|f: int| 1 <= f <= 9 && f != e ==> !#[trigger] branch.has(c, f),
    ensures
        branch.total() < grid.total(),
{
    lemma_cell_size(grid, c);
    assert(!grid.only(c, e));
    let f = choose|f: int| 1 <= f <= 9 && f != e && #[trigger] grid.has(c, f);
    assert(!branch.has(c, f));
    lemma_refines_total(grid, branch);
}

/// The cell with the fewest candidates among those with two or more, the
/// lowest such index on a tie; `None` when no cell has two or more.
pub fn select_next(grid: &Grid) -> (r: Option<usize>)
    requires
        grid.wf(),
    ensures
        r is None ==> forall|m: int| 0 <= m < 81 ==> #[trigger] grid.size(m) < 2,
        r is Some ==> {
            let c = r->Some_0;
            &&& c < 81
            &&& grid.size(c as int) >= 2
            &&& forall|m: int| 0 <= m < 81 && #[trigger] grid.size(m) >= 2 ==> grid.size(c as int) <= grid.size(m)
            &&& forall|m: int| 0 <= m < c && #[trigger] grid.size(m) >= 2 ==> grid.size(c as int) < grid.size(m)
        },
{
    let mut best: Option<usize> = None;
    let mut best_n: usize = 10;
    let mut c: usize = 0;
    while c < 81
        invariant
            c <= 81,
            grid.wf(),
            best is None ==> forall|m: int| 0 <= m < c ==> #[trigger] grid.size(m) < 2,
            best is Some ==> {
                let b = best->Some_0;
                &&& b < c
                &&& best_n == grid.size(b as int)
                &&& best_n >= 2
                &&& forall|m: int| 0 <= m < c && #[trigger] grid.size(m) >= 2 ==> best_n <= grid.size(m)
                &&& forall|m: int| 0 <= m < b && #[trigger] grid.size(m) >= 2 ==> best_n < grid.size(m)
            },
        decreases 81 - c,
    {
        let n = grid.count(c);
        if n >= 2 && (best.is_none() || n < best_n) {
            best = Some(c);
            best_n = n;
        }
        c = c + 1;
    }
    best
}

/// Searches for a completion of `grid`: the board itself when solved, else the
/// first solution found trying the candidates of the selected cell in
/// increasing order, each on its own copy of the board.
#[verifier::spinoff_prover]
#[verifier::rlimit(50)]
pub fn search(grid: &Grid) -> (r: Option<Grid>)
    requires
        grid.wf(),
    ensures
        searched(grid, r),
    decreases grid.total(),
{
    if grid.is_solved() {
        let g = grid.copy();
        proof {
            lemma_flags_equal(grid, &g);
            if grid.consistent() {
                lemma_solved_is_solution(*grid);
                assert(values(g) == values(*grid));
            }
        }
        return Some(g);
    }
    let next = select_next(grid);
    match next {
        None => {
            proof {
                assert forall|s: Seq<int>| #[trigger] is_solution(s) implies !grid.admits(s) by {
                    let c = choose|c: int| 0 <= c < 81 && #[trigger] grid.size(c) != 1;
                    lemma_cell_size(grid, c);
                    if grid.admits(s) {
                        assert(grid.has(c, s[c]));
                    }
                }
            }
            None
        },
        Some(c) => {
            let mut e: u8 = 1;
            while e <= 9
                invariant
                    1 <= e <= 10,
                    c < 81,
                    grid.wf(),
                    grid.size(c as int) >= 2,
                    forall|s: Seq<int>| #[trigger] is_solution(s) && grid.admits(s) ==> s[c as int] >= e,
                decreases 10 - e,
            {
                if grid.has_digit(c, e) {
                    let mut branch = grid.copy();
                    let ghost start = branch;
                    proof {
                        lemma_flags_equal(grid, &start);
                    }
                    let ok = branch.set(c, e);
                    if ok {
                        proof {
                            lemma_branch_smaller(grid, &branch, c as int, e as int);
                        }
                        let found = search(&branch);
                        match found {
                            Some(sol) => {
                                proof {
                                    lemma_refines_trans(grid, &start, &branch);
                                    lemma_refines_trans(grid, &branch, &sol);
                                    if grid.consistent() {
                                        assert(start.consistent());
                                        assert(branch.consistent());
                                        assert(branch.admits(values(sol)));
                                        let v = values(sol);
                                        assert forall|x: int| 0 <= x < 81 implies #[trigger] grid.has(x, v[x]) by {
                                            assert(branch.has(x, v[x]));
                                        }
                                    }
                                }
                                return Some(sol);
                            },
                            None => {},
                        }
                    }
                }
                e = e + 1;
            }
            proof {
                assert forall|s: Seq<int>| #[trigger] is_solution(s) implies !grid.admits(s) by {
                    if grid.admits(s) {
                        assert(1 <= s[c as int] <= 9);
                    }
                }
            }
            None
        },
    }
}

/// A puzzle: the board that its givens leave once propagated.
pub struct Puzzle {
    pub grid: Grid,
}

impl Puzzle {
    /// Reads the puzzle text as `Grid::from_string` does.
    pub fn from_string(input: &String) -> (r: Result<Puzzle, ParseError>)
        ensures
            parsed(
                input@,
                match r {
                    Ok(p) => Ok(p.grid),
                    Err(e) => Err(e),
                },
            ),
    {
        match Grid::from_string(input) {
            Ok(grid) => Ok(Puzzle { grid }),
            Err(e) => Err(e),
        }
    }

    /// Solves the puzzle by search from its board.
    pub fn solve(&self) -> (r: Option<Grid>)
        requires
            self.grid.wf(),
        ensures
            searched(&self.grid, r),
    {
        search(&self.grid)
    }
}

} // verus!
