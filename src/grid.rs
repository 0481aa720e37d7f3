//! The constraint-propagation engine: 81 possibility sets, narrowed by
//! elimination, with peer elimination and unit forced placement.
use vstd::prelude::*;
use crate::geometry::{
    box_start, cells_are, col_of, is_peer, ix, lemma_unit_cells_in_range, peers, row_of, units, units_of,
};

verus! {

/// Number of `true` entries of `s`.
pub open spec fn trues(s: Seq<bool>) -> nat
    decreases s.len(),
{
    if s.len() == 0 {
        0
    } else {
        trues(s.drop_last()) + if s.last() { 1nat } else { 0nat }
    }
}

/// A complete filling of the board that obeys the rules: every cell holds a
/// digit, peers hold different digits, and every unit holds every digit.
pub open spec fn is_solution(s: Seq<int>) -> bool {
    &&& s.len() == 81
    &&& forall|c: int| 0 <= c < 81 ==> 1 <= #[trigger] s[c] <= 9
    &&& forall|c: int, p: int| 0 <= c < 81 && #[trigger] is_peer(c, p) ==> s[c] != s[p]
    &&& forall|c: int, u: int, d: int|
        0 <= c < 81 && 0 <= u < 3 && 1 <= d <= 9 ==> #[trigger] unit_holds(s, c, u, d)
}

/// Some cell of unit `u` of cell `c` holds `d` in `s`.
pub open spec fn unit_holds(s: Seq<int>, c: int, u: int, d: int) -> bool {
    exists|k: int| 0 <= k < 9 && #[trigger] s[units_of(c)[u][k]] == d
}

/// Dropping `true` entries of `s` lowers the count, by at least one when any is dropped.
pub proof fn lemma_trues_le(s: Seq<bool>, t: Seq<bool>)
    requires
        s.len() == t.len(),
        forall|k: int| 0 <= k < t.len() && #[trigger] t[k] ==> s[k],
    ensures
        trues(t) <= trues(s),
        (exists|k: int| 0 <= k < s.len() && #[trigger] s[k] && !t[k]) ==> trues(t) < trues(s),
    decreases s.len(),
{
    if s.len() > 0 {
        let (s0, t0) = (s.drop_last(), t.drop_last());
        lemma_trues_le(s0, t0);
        if exists|k: int| 0 <= k < s.len() && #[trigger] s[k] && !t[k] {
            let k = choose|k: int| 0 <= k < s.len() && #[trigger] s[k] && !t[k];
            if k < s.len() - 1 {
                assert(s0[k] && !t0[k]);
            }
        }
    }
}

/// A count of zero means no entry is `true`.
pub proof fn lemma_trues_zero(s: Seq<bool>)
    ensures
        trues(s) == 0 <==> forall|k: int| 0 <= k < s.len() ==> !#[trigger] s[k],
    decreases s.len(),
{
    if s.len() > 0 {
        lemma_trues_zero(s.drop_last());
        if trues(s) == 0 {
            assert forall|k: int| 0 <= k < s.len() implies !#[trigger] s[k] by {
                if k < s.len() - 1 {
                    assert(!s.drop_last()[k]);
                }
            }
        } else {
            if forall|k: int| 0 <= k < s.len() ==> !#[trigger] s[k] {
                assert forall|k: int| 0 <= k < s.drop_last().len() implies !#[trigger] s.drop_last()[k] by {
                    assert(!s[k]);
                }
            }
        }
    }
}

/// Where entry `k` is `true`, a count of one means it is the only `true` entry.
pub proof fn lemma_trues_one(s: Seq<bool>, k: int)
    requires
        0 <= k < s.len(),
        s[k],
    ensures
        trues(s) == 1 <==> forall|m: int| 0 <= m < s.len() && m != k ==> !#[trigger] s[m],
    decreases s.len(),
{
    let s0 = s.drop_last();
    if k == s.len() - 1 {
        lemma_trues_zero(s0);
        if trues(s) == 1 {
            assert forall|m: int| 0 <= m < s.len() && m != k implies !#[trigger] s[m] by {
                assert(!s0[m]);
            }
        } else if forall|m: int| 0 <= m < s.len() && m != k ==> !#[trigger] s[m] {
            assert forall|m: int| 0 <= m < s0.len() implies !#[trigger] s0[m] by {
                assert(!s[m]);
            }
        }
    } else {
        lemma_trues_one(s0, k);
        if trues(s) == 1 {
            assert(trues(s0) >= 1) by {
                lemma_trues_zero(s0);
                assert(s0[k]);
            }
            assert forall|m: int| 0 <= m < s.len() && m != k implies !#[trigger] s[m] by {
                if m < s.len() - 1 {
                    assert(!s0[m]);
                }
            }
        } else if forall|m: int| 0 <= m < s.len() && m != k ==> !#[trigger] s[m] {
            assert forall|m: int| 0 <= m < s0.len() && m != k implies !#[trigger] s0[m] by {
                assert(!s[m]);
            }
        }
    }
}

/// The character that shows digit `d`.
pub open spec fn digit_char(d: int) -> char {
    (('0' as int) + d) as char
}

/// The candidates of cell `i` among digits `1..=n`, as text in ascending order.
pub open spec fn candidates_text(g: Grid, i: int, n: int) -> Seq<char>
    decreases n,
{
    if n <= 0 {
        Seq::empty()
    } else {
        candidates_text(g, i, n - 1) + if g.has(i, n) { seq![digit_char(n)] } else { Seq::empty() }
    }
}

/// The text with every newline taken out.
pub open spec fn strip_newlines(t: Seq<char>) -> Seq<char>
    decreases t.len(),
{
    if t.len() == 0 {
        Seq::empty()
    } else {
        strip_newlines(t.drop_last()) + if t.last() == '\n' { Seq::empty() } else { seq![t.last()] }
    }
}

/// A character that may stand for a cell: `'0'` for unknown, `'1'..='9'` for a given.
pub open spec fn is_cell_char(c: char) -> bool {
    '0' <= c <= '9'
}

/// The digit a cell character stands for, 0 for unknown.
pub open spec fn char_digit(c: char) -> int {
    c as int - '0' as int
}

/// The solution `s` has every given of the puzzle text `t` in its cell.
pub open spec fn agrees(s: Seq<int>, t: Seq<char>) -> bool {
    forall|k: int| 0 <= k < 81 && t[k] != '0' ==> s[k] == char_digit(#[trigger] t[k])
}

/// What reading the puzzle text `input` gives: an error that says exactly what
/// is wrong with its shape, a contradiction only where no solution has its
/// givens, and otherwise a consistent board that holds each given and every
/// solution with those givens; a text of unknowns only gives the full board.
pub open spec fn parsed(input: Seq<char>, r: Result<Grid, ParseError>) -> bool {
    let t = strip_newlines(input);
    &&& r == Err::<Grid, ParseError>(ParseError::BadLength) <==> t.len() != 81
    &&& r == Err::<Grid, ParseError>(ParseError::BadCharacter) <==> t.len() == 81 && exists|k: int|
        0 <= k < 81 && !is_cell_char(#[trigger] t[k])
    &&& r == Err::<Grid, ParseError>(ParseError::Contradiction) ==> !exists|s: Seq<int>|
        #[trigger] is_solution(s) && agrees(s, t)
    &&& r is Ok ==> {
        let g = r->Ok_0;
        &&& t.len() == 81
        &&& g.consistent()
        &&& forall|k: int| 0 <= k < 81 && t[k] != '0' ==> g.only(k, char_digit(#[trigger] t[k]))
        &&& forall|s: Seq<int>| #[trigger] is_solution(s) && agrees(s, t) ==> g.admits(s)
        &&& (forall|k: int| 0 <= k < 81 ==> #[trigger] t[k] != '0') ==> g.solved()
    }
    &&& t.len() == 81 && (forall|k: int| 0 <= k < 81 ==> #[trigger] t[k] == '0') ==> r is Ok && r->Ok_0.full()
}

/// A puzzle text whose cells are well formed but where two peers are given
/// the same digit is refused as a contradiction.
pub proof fn lemma_duplicate_givens_rejected(input: Seq<char>, r: Result<Grid, ParseError>, a: int, b: int)
    requires
        parsed(input, r),
        strip_newlines(input).len() == 81,
        forall|k: int| 0 <= k < 81 ==> is_cell_char(#[trigger] strip_newlines(input)[k]),
        0 <= a < 81,
        is_peer(a, b),
        strip_newlines(input)[a] == strip_newlines(input)[b],
        strip_newlines(input)[a] != '0',
    ensures
        r == Err::<Grid, ParseError>(ParseError::Contradiction),
{
    let t = strip_newlines(input);
    if let Ok(g) = r {
        let d = char_digit(t[a]);
        assert(g.only(a, d));
        assert(g.only(b, char_digit(t[b])));
        assert(g.settled_clean(a));
    }
    if let Err(e) = r {
        match e {
            ParseError::BadLength => {},
            ParseError::BadCharacter => {},
            ParseError::Contradiction => {},
        }
    }
}

/// Why a puzzle text was refused.
#[derive(Debug, Clone, Copy, PartialEq, Eq, Structural)]
pub enum ParseError {
    /// Without its newlines, the text is not 81 characters long.
    BadLength,
    /// A character is neither `'0'` nor a digit `'1'..='9'`.
    BadCharacter,
    /// Placing the givens ran into a contradiction.
    Contradiction,
}

/// A board of 81 cells, read row by row, each with its set of candidate digits.
#[derive(Debug, Clone)]
pub struct Grid {
    cells: Vec<bool>,
}

impl Grid {
    /// Each of the 81 cells has nine candidate flags, digit `d` at offset `d - 1`.
    pub closed spec fn flags(&self) -> Seq<bool> {
        self.cells@
    }

    /// The board has all 81 x 9 candidate flags.
    pub open spec fn wf(&self) -> bool {
        self.flags().len() == 729
    }

    /// Digit `d` is still possible at cell `i`.
    pub open spec fn has(&self, i: int, d: int) -> bool {
        self.flags()[9 * i + d - 1]
    }

    /// The nine candidate flags of cell `i`.
    pub open spec fn cell(&self, i: int) -> Seq<bool> {
        self.flags().subrange(9 * i, 9 * i + 9)
    }

    /// Number of candidates of cell `i`.
    pub open spec fn size(&self, i: int) -> nat {
        trues(self.cell(i))
    }

    /// Number of candidates over the whole board.
    pub open spec fn total(&self) -> nat {
        trues(self.flags())
    }

    /// Cell `i` has at least one candidate.
    pub open spec fn nonempty(&self, i: int) -> bool {
        exists|d: int| 1 <= d <= 9 && #[trigger] self.has(i, d)
    }

    /// Cell `i` holds `d` and nothing else.
    pub open spec fn only(&self, i: int, d: int) -> bool {
        &&& 1 <= d <= 9
        &&& self.has(i, d)
        &&& forall|e: int| 1 <= e <= 9 && e != d ==> !#[trigger] self.has(i, e)
    }

    /// Once cell `i` is down to one digit, no peer of it still holds that digit.
    pub open spec fn settled_clean(&self, i: int) -> bool {
        forall|d: int, p: int| self.only(i, d) && is_peer(i, p) ==> !#[trigger] self.has(p, d)
    }

    /// Unit `u` of cell `c` still has a place for digit `d`.
    pub open spec fn covered(&self, c: int, u: int, d: int) -> bool {
        exists|k: int| 0 <= k < 9 && #[trigger] self.has(units_of(c)[u][k], d)
    }

    /// Every candidate of `self` was a candidate of `g`.
    pub open spec fn refines(&self, g: &Grid) -> bool {
        forall|c: int, d: int| 0 <= c < 81 && 1 <= d <= 9 && #[trigger] self.has(c, d) ==> g.has(c, d)
    }

    /// The solution `s` agrees with every cell of the board.
    pub open spec fn admits(&self, s: Seq<int>) -> bool {
        forall|c: int| 0 <= c < 81 ==> #[trigger] self.has(c, s[c])
    }

    /// No cell is empty, every settled cell is clean, every unit has a place for every digit.
    pub open spec fn consistent(&self) -> bool {
        &&& self.wf()
        &&& forall|c: int| 0 <= c < 81 ==> #[trigger] self.nonempty(c)
        &&& forall|c: int| 0 <= c < 81 ==> #[trigger] self.settled_clean(c)
        &&& forall|c: int, u: int, d: int|
            0 <= c < 81 && 0 <= u < 3 && 1 <= d <= 9 ==> #[trigger] self.covered(c, u, d)
    }

    /// Every digit is possible in every cell.
    pub open spec fn full(&self) -> bool {
        &&& self.wf()
        &&& forall|c: int, d: int| 0 <= c < 81 && 1 <= d <= 9 ==> #[trigger] self.has(c, d)
    }

    /// Every cell holds exactly one candidate.
    pub open spec fn solved(&self) -> bool {
        forall|c: int| 0 <= c < 81 ==> #[trigger] self.size(c) == 1
    }
}

impl Grid {
    /// The full board: every digit possible in every cell.
    pub fn new() -> (r: Grid)
        ensures
            r.full(),
    {
        let mut cells: Vec<bool> = Vec::new();
        let mut k: usize = 0;
        while k < 729
            invariant
                k <= 729,
                cells@.len() == k,
                forall|m: int| 0 <= m < k ==> #[trigger] cells@[m],
            decreases 729 - k,
        {
            cells.push(true);
            k = k + 1;
        }
        Grid { cells }
    }

    /// Whether the board has all its candidate flags; every board this module
    /// hands out has.
    pub fn is_well_formed(&self) -> (r: bool)
        ensures
            r == self.wf(),
    {
        self.cells.len() == 729
    }

    /// Whether every cell is down to exactly one candidate.
    pub fn is_solved(&self) -> (r: bool)
        requires
            self.wf(),
        ensures
            r == self.solved(),
    {
        let mut c: usize = 0;
        while c < 81
            invariant
                c <= 81,
                self.wf(),
                forall|m: int| 0 <= m < c ==> #[trigger] self.size(m) == 1,
            decreases 81 - c,
        {
            if self.count(c) != 1 {
                return false;
            }
            c = c + 1;
        }
        true
    }

    /// The candidates of cell `i` as text, digits in ascending order.
    pub fn at(&self, i: usize) -> (r: String)
        requires
            self.wf(),
            i < 81,
        ensures
            r@ == candidates_text(*self, i as int, 9),
    {
        let mut r = String::new();
        let mut d: u8 = 1;
        while d <= 9
            invariant
                1 <= d <= 10,
                self.wf(),
                i < 81,
                r@ == candidates_text(*self, i as int, d - 1),
            decreases 10 - d,
        {
            if self.has_digit(i, d) {
                r.append(digit_text(d));
            }
            d = d + 1;
        }
        r
    }

    /// The candidates of every cell as text, cell by cell.
    pub fn all_values(&self) -> (r: Vec<String>)
        requires
            self.wf(),
        ensures
            r@.len() == 81,
            forall|c: int| 0 <= c < 81 ==> #[trigger] r@[c]@ == candidates_text(*self, c, 9),
    {
        let mut r: Vec<String> = Vec::new();
        let mut c: usize = 0;
        while c < 81
            invariant
                c <= 81,
                self.wf(),
                r@.len() == c,
                forall|m: int| 0 <= m < c ==> #[trigger] r@[m]@ == candidates_text(*self, m, 9),
            decreases 81 - c,
        {
            r.push(self.at(c));
            c = c + 1;
        }
        r
    }

    /// The candidates of the cell at `row`, `col` as text.
    pub fn get(&self, row: u8, col: u8) -> (r: String)
        requires
            self.wf(),
            row < 9,
            col < 9,
        ensures
            r@ == candidates_text(*self, row * 9 + col, 9),
    {
        self.at(ix(row, col))
    }

    /// Reads a puzzle: 81 cell characters once newlines are taken out, `'0'`
    /// for an unknown cell and `'1'..='9'` for a given, which is then set with
    /// full propagation.
    pub fn from_string(input: &String) -> (r: Result<Grid, ParseError>)
        ensures
            parsed(input@, r),
    {
        let ghost t = strip_newlines(input@);
        let text = input.as_str();
        let len = text.unicode_len();
        let mut cells: Vec<char> = Vec::new();
        let mut k: usize = 0;
        while k < len
            invariant
                k <= len,
                len == input@.len(),
                text@ == input@,
                cells@ == strip_newlines(input@.subrange(0, k as int)),
            decreases len - k,
        {
            let c = text.get_char(k);
            assert(input@.subrange(0, k + 1).drop_last() =~= input@.subrange(0, k as int));
            if c != '\n' {
                cells.push(c);
            }
            k = k + 1;
        }
        assert(input@.subrange(0, len as int) =~= input@);
        if cells.len() != 81 {
            return Err(ParseError::BadLength);
        }
        let mut k: usize = 0;
        while k < 81
            invariant
                k <= 81,
                cells@ == t,
                t == strip_newlines(input@),
                t.len() == 81,
                forall|m: int| 0 <= m < k ==> is_cell_char(#[trigger] t[m]),
            decreases 81 - k,
        {
            if !(cells[k] >= '0' && cells[k] <= '9') {
                assert(!is_cell_char(t[k as int]));
                return Err(ParseError::BadCharacter);
            }
            k = k + 1;
        }
        let mut grid = Grid::new();
        proof {
            lemma_full_consistent(&grid);
        }
        let ghost g0 = grid;
        let mut k: usize = 0;
        while k < 81
            invariant
                k <= 81,
                cells@ == t,
                t == strip_newlines(input@),
                t.len() == 81,
                forall|m: int| 0 <= m < 81 ==> is_cell_char(#[trigger] t[m]),
                g0.full(),
                grid.consistent(),
                forall|m: int| 0 <= m < k && t[m] != '0' ==> grid.only(m, char_digit(#[trigger] t[m])),
                forall|s: Seq<int>| #[trigger] is_solution(s) && agrees(s, t) ==> grid.admits(s),
                (forall|m: int| 0 <= m < k ==> #[trigger] t[m] == '0') ==> grid == g0,
            decreases 81 - k,
        {
            let c = cells[k];
            if c != '0' {
                let d = (c as u32 - '0' as u32) as u8;
                let ghost before = grid;
                let ok = grid.set(k, d);
                proof {
                    assert forall|s: Seq<int>| #[trigger] is_solution(s) && agrees(s, t) implies s[k as int] == d by {
                        assert(t[k as int] != '0');
                    }
                }
                if !ok {
                    assert forall|s: Seq<int>| #[trigger] is_solution(s) && agrees(s, t) implies false by {
                        assert(before.admits(s));
                        assert(s[k as int] == d);
                    }
                    return Err(ParseError::Contradiction);
                }
                proof {
                    assert forall|m: int| 0 <= m < k + 1 && t[m] != '0' implies grid.only(m, char_digit(#[trigger] t[m])) by {
                        if m < k {
                            let e = char_digit(t[m]);
                            assert(before.only(m, e));
                            assert(grid.nonempty(m));
                            let f = choose|f: int| 1 <= f <= 9 && #[trigger] grid.has(m, f);
                            assert(before.has(m, f));
                        }
                    }
                }
            }
            k = k + 1;
        }
        proof {
            if forall|m: int| 0 <= m < 81 ==> #[trigger] t[m] != '0' {
                assert forall|c: int| 0 <= c < 81 implies #[trigger] grid.size(c) == 1 by {
                    lemma_cell_size(&grid, c);
                    assert(t[c] != '0');
                }
            }
        }
        Ok(grid)
    }

    /// An independent copy of the board.
    pub fn copy(&self) -> (r: Grid)
        ensures
            r.flags() == self.flags(),
    {
        let mut cells: Vec<bool> = Vec::new();
        let mut k: usize = 0;
        while k < self.cells.len()
            invariant
                k <= self.cells@.len(),
                cells@ == self.cells@.subrange(0, k as int),
            decreases self.cells@.len() - k,
        {
            cells.push(self.cells[k]);
            k = k + 1;
            assert(cells@ =~= self.cells@.subrange(0, k as int));
        }
        assert(cells@ =~= self.cells@);
        Grid { cells }
    }

    /// Whether digit `d` is still possible at cell `i`.
    pub fn has_digit(&self, i: usize, d: u8) -> (r: bool)
        requires
            self.wf(),
            i < 81,
            1 <= d <= 9,
        ensures
            r == self.has(i as int, d as int),
    {
        self.cells[9 * i + d as usize - 1]
    }

    /// Number of candidates of cell `i`.
    pub fn count(&self, i: usize) -> (r: usize)
        requires
            self.wf(),
            i < 81,
        ensures
            r == self.size(i as int),
            r <= 9,
    {
        let ghost cell = self.cell(i as int);
        let mut n: usize = 0;
        let mut k: usize = 0;
        while k < 9
            invariant
                k <= 9,
                n <= k,
                i < 81,
                self.wf(),
                cell == self.cell(i as int),
                n == trues(cell.subrange(0, k as int)),
            decreases 9 - k,
        {
            assert(cell.subrange(0, k + 1).drop_last() =~= cell.subrange(0, k as int));
            if self.cells[9 * i + k] {
                n = n + 1;
            }
            k = k + 1;
        }
        assert(cell.subrange(0, 9) =~= cell);
        n
    }

    /// The smallest candidate of a nonempty cell.
    fn first_candidate(&self, i: usize) -> (r: u8)
        requires
            self.wf(),
            i < 81,
            self.nonempty(i as int),
        ensures
            1 <= r <= 9,
            self.has(i as int, r as int),
    {
        let mut d: u8 = 1;
        while d <= 9
            invariant
                1 <= d <= 10,
                self.wf(),
                i < 81,
                forall|e: int| 1 <= e < d ==> !#[trigger] self.has(i as int, e),
            decreases 10 - d,
        {
            if self.has_digit(i, d) {
                return d;
            }
            d = d + 1;
        }
        assert(false);
        1
    }

    /// Where digit `d` can still go in `unit`: the count, capped at two, and
    /// the last such cell.
    fn places(&self, unit: &Vec<usize>, d: u8) -> (r: (u8, usize))
        requires
            self.wf(),
            unit@.len() == 9,
            forall|k: int| 0 <= k < 9 ==> #[trigger] unit@[k] < 81,
            1 <= d <= 9,
        ensures
            r.0 <= 2,
            r.0 == 0 ==> forall|k: int| 0 <= k < 9 ==> !#[trigger] self.has(unit@[k] as int, d as int),
            r.0 >= 1 ==> r.1 < 81 && self.has(r.1 as int, d as int) && unit@.contains(r.1),
            r.0 == 1 ==> forall|k: int|
                0 <= k < 9 && #[trigger] self.has(unit@[k] as int, d as int) ==> unit@[k] == r.1,
    {
        let mut n: u8 = 0;
        let mut place: usize = 0;
        let mut k: usize = 0;
        while k < 9
            invariant
                k <= 9,
                n <= 2,
                self.wf(),
                unit@.len() == 9,
                forall|m: int| 0 <= m < 9 ==> #[trigger] unit@[m] < 81,
                1 <= d <= 9,
                n == 0 ==> forall|m: int| 0 <= m < k ==> !#[trigger] self.has(unit@[m] as int, d as int),
                n >= 1 ==> place < 81 && self.has(place as int, d as int) && unit@.contains(place),
                n == 1 ==> forall|m: int|
                    0 <= m < k && #[trigger] self.has(unit@[m] as int, d as int) ==> unit@[m] == place,
            decreases 9 - k,
        {
            let c = unit[k];
            if self.has_digit(c, d) {
                assert(unit@[k as int] == c);
                if n < 2 {
                    n = n + 1;
                }
                place = c;
            }
            k = k + 1;
        }
        (n, place)
    }

    /// Narrows cell `i` to the single digit `d` by eliminating every other
    /// candidate of it, with full propagation. Returns false on a contradiction.
    pub fn set(&mut self, i: usize, d: u8) -> (r: bool)
        requires
            old(self).wf(),
            i < 81,
            1 <= d <= 9,
        ensures
            assigned(*old(self), *final(self), i as int, d as int, r),
        decreases old(self).total(), 1int,
    {
        let ghost g0 = *self;
        let mut e: u8 = 1;
        while e <= 9
            invariant
                1 <= e <= 10,
                i < 81,
                1 <= d <= 9,
                g0 == *old(self),
                g0.wf(),
                self.wf(),
                self.refines(&g0),
                propagated(&g0, self),
                self.total() <= g0.total(),
                forall|f: int| 1 <= f < e && f != d ==> !#[trigger] self.has(i as int, f),
                forall|s: Seq<int>|
                    #[trigger] is_solution(s) && g0.admits(s) && s[i as int] == d ==> self.admits(s),
            decreases 10 - e,
        {
            if e != d && self.has_digit(i, e) {
                let ghost before = *self;
                let ok = self.eliminate(i, e);
                proof {
                    lemma_refines_total(&before, self);
                    lemma_refines_trans(&g0, &before, self);
                }
                if !ok {
                    return false;
                }
                proof {
                    lemma_propagated_trans(&g0, &before, self);
                }
            }
            e = e + 1;
        }
        proof {
            if g0.consistent() {
                lemma_propagated_consistent(&g0, self);
                assert(self.nonempty(i as int));
                let f = choose|f: int| 1 <= f <= 9 && #[trigger] self.has(i as int, f);
                assert(f == d);
                assert(self.settled_clean(i as int));
                assert(g0.has(i as int, d as int));
            }
        }
        true
    }

    /// Removes `d` from cell `i` and propagates: a cell left with one digit has
    /// that digit removed from its peers, and a unit left with one place for `d`
    /// gets `d` set there. Returns false on a contradiction.
    fn eliminate(&mut self, i: usize, d: u8) -> (r: bool)
        requires
            old(self).wf(),
            i < 81,
            1 <= d <= 9,
        ensures
            final(self).wf(),
            final(self).refines(old(self)),
            !old(self).has(i as int, d as int) ==> r && final(self).flags() == old(self).flags(),
            r ==> !final(self).has(i as int, d as int),
            r ==> propagated(old(self), final(self)),
            forall|s: Seq<int>|
                #[trigger] is_solution(s) && old(self).admits(s) && s[i as int] != d ==> r && final(self).admits(s),
        decreases old(self).total(), 0int,
    {
        if !self.has_digit(i, d) {
            return true;
        }
        let ghost g0 = *self;
        self.remove(i, d);
        let ghost g1 = *self;
        proof {
            lemma_refines_total(&g0, &g1);
            lemma_cell_size(&g1, i as int);
            lemma_remove_coverage(&g0, &g1, i as int, d as int);
            assert forall|s: Seq<int>| #[trigger] is_solution(s) && g0.admits(s) && s[i as int] != d implies g1.admits(s) by {
                assert forall|c: int| 0 <= c < 81 implies #[trigger] g1.has(c, s[c]) by {
                    assert(g0.has(c, s[c]));
                }
            }
        }
        let n = self.count(i);
        if n == 0 {
            proof {
                assert forall|s: Seq<int>| #[trigger] is_solution(s) && g1.admits(s) implies false by {
                    assert(1 <= s[i as int] <= 9);
                    assert(g1.has(i as int, s[i as int]));
                }
            }
            return false;
        }
        proof {
            lemma_remove_keeps_nonempty(&g0, &g1, i as int, d as int);
        }
        if n == 1 {
            let d2 = self.first_candidate(i);
            let ok = self.clear_peers(i, d2);
            proof {
                lemma_refines_trans(&g0, &g1, self);
                assert forall|s: Seq<int>| #[trigger] is_solution(s) && g1.admits(s) implies s[i as int] == d2 by {
                    assert(g1.has(i as int, s[i as int]));
                }
            }
            if !ok {
                return false;
            }
            proof {
                lemma_settled_after_peers(&g0, &g1, self, i as int, d as int, d2 as int);
            }
        } else {
            proof {
                lemma_settled_untouched(&g0, &g1, i as int, d as int);
            }
        }
        let ghost gm = *self;
        proof {
            lemma_refines_total(&g1, &gm);
        }
        let ok = self.fill_units(i, d);
        proof {
            lemma_refines_trans(&g0, &gm, self);
        }
        if !ok {
            return false;
        }
        proof {
            lemma_keeps_trans(&g0, &gm, self);
            assert forall|c: int, v: int, e: int|
                0 <= c < 81 && 0 <= v < 3 && 1 <= e <= 9 && g0.covered(c, v, e) implies #[trigger] self.covered(c, v, e) by {
                if e == d && units_of(c)[v] == units_of(i as int)[v] {
                    assert(self.covered(i as int, v, e));
                } else {
                    assert(g1.covered(c, v, e));
                    assert(gm.covered(c, v, e));
                }
            }
        }
        true
    }

    /// Removes digit `d2` from every peer of cell `i`, with propagation.
    fn clear_peers(&mut self, i: usize, d2: u8) -> (r: bool)
        requires
            old(self).wf(),
            i < 81,
            1 <= d2 <= 9,
        ensures
            final(self).wf(),
            final(self).refines(old(self)),
            r ==> propagated(old(self), final(self)),
            r ==> forall|p: int| is_peer(i as int, p) ==> !#[trigger] final(self).has(p, d2 as int),
            forall|s: Seq<int>|
                #[trigger] is_solution(s) && old(self).admits(s) && s[i as int] == d2 ==> r && final(self).admits(s),
        decreases old(self).total(), 1int,
    {
        let ghost g0 = *self;
        let ps = peers(i);
        let mut k: usize = 0;
        while k < ps.len()
            invariant
                g0 == *old(self),
                i < 81,
                1 <= d2 <= 9,
                g0.wf(),
                self.wf(),
                self.refines(&g0),
                forall|m: int| 0 <= m < ps@.len() ==> is_peer(i as int, #[trigger] ps@[m] as int),
                forall|j: usize| is_peer(i as int, j as int) <==> ps@.contains(j),
                k <= ps@.len(),
                propagated(&g0, self),
                self.total() <= g0.total(),
                forall|m: int| 0 <= m < k ==> !#[trigger] self.has(ps@[m] as int, d2 as int),
                forall|s: Seq<int>|
                    #[trigger] is_solution(s) && g0.admits(s) && s[i as int] == d2 ==> self.admits(s),
            decreases ps@.len() - k,
        {
            let p = ps[k];
            let ghost before = *self;
            let ok = self.eliminate(p, d2);
            proof {
                lemma_refines_total(&before, self);
                lemma_refines_trans(&g0, &before, self);
                assert forall|s: Seq<int>|
                    #[trigger] is_solution(s) && g0.admits(s) && s[i as int] == d2 implies s[p as int] != d2 by {
                    assert(is_peer(i as int, p as int));
                }
            }
            if !ok {
                return false;
            }
            proof {
                lemma_propagated_trans(&g0, &before, self);
            }
            k = k + 1;
        }
        proof {
            assert forall|p: int| is_peer(i as int, p) implies !#[trigger] self.has(p, d2 as int) by {
                assert(ps@.contains(p as usize));
                let m = choose|m: int| 0 <= m < ps@.len() && ps@[m] == p as usize;
                assert(!self.has(ps@[m] as int, d2 as int));
            }
        }
        true
    }

    /// For each unit of cell `i`: fails if no cell of it can hold `d`, and sets
    /// `d` where exactly one can.
    fn fill_units(&mut self, i: usize, d: u8) -> (r: bool)
        requires
            old(self).wf(),
            i < 81,
            1 <= d <= 9,
        ensures
            final(self).wf(),
            final(self).refines(old(self)),
            r ==> propagated(old(self), final(self)),
            r ==> forall|v: int| 0 <= v < 3 ==> #[trigger] final(self).covered(i as int, v, d as int),
            forall|s: Seq<int>| #[trigger] is_solution(s) && old(self).admits(s) ==> r && final(self).admits(s),
        decreases old(self).total(), 2int,
    {
        let ghost g0 = *self;
        let us = units(i);
        let mut u: usize = 0;
        while u < 3
            invariant
                i < 81,
                1 <= d <= 9,
                u <= 3,
                g0 == *old(self),
                g0.wf(),
                self.wf(),
                self.refines(&g0),
                self.total() <= g0.total(),
                us@.len() == 3,
                forall|v: int| 0 <= v < 3 ==> cells_are(#[trigger] us@[v]@, units_of(i as int)[v]),
                propagated(&g0, self),
                forall|v: int| 0 <= v < u ==> #[trigger] self.covered(i as int, v, d as int),
                forall|s: Seq<int>| #[trigger] is_solution(s) && g0.admits(s) ==> self.admits(s),
            decreases 3 - u,
        {
            let unit = &us[u];
            proof {
                assert(cells_are(unit@, units_of(i as int)[u as int]));
                assert forall|k: int| 0 <= k < 9 implies #[trigger] unit@[k] < 81 by {
                    lemma_unit_cells_in_range(i as int, u as int, k);
                }
            }
            let (cnt, place) = self.places(unit, d);
            if cnt == 0 {
                proof {
                    assert forall|s: Seq<int>| #[trigger] is_solution(s) && g0.admits(s) implies false by {
                        assert(unit_holds(s, i as int, u as int, d as int));
                        let k = choose|k: int| 0 <= k < 9 && #[trigger] s[units_of(i as int)[u as int][k]] == d;
                        assert(self.has(unit@[k] as int, d as int));
                    }
                }
                return false;
            }
            let ghost before = *self;
            proof {
                let k = choose|k: int| 0 <= k < unit@.len() && unit@[k] == place;
                assert(before.has(units_of(i as int)[u as int][k], d as int));
                assert(before.covered(i as int, u as int, d as int));
            }
            if cnt == 1 {
                let ok = self.set(place, d);
                proof {
                    lemma_refines_total(&before, self);
                    lemma_refines_trans(&g0, &before, self);
                    assert forall|s: Seq<int>| #[trigger] is_solution(s) && g0.admits(s) implies s[place as int] == d by {
                        assert(unit_holds(s, i as int, u as int, d as int));
                        let k = choose|k: int| 0 <= k < 9 && #[trigger] s[units_of(i as int)[u as int][k]] == d;
                        assert(before.has(unit@[k] as int, d as int));
                    }
                }
                if !ok {
                    return false;
                }
                proof {
                    lemma_propagated_trans(&g0, &before, self);
                }
            }
            u = u + 1;
        }
        true
    }

    /// Removes `d` from the candidates of cell `i`, touching nothing else.
    fn remove(&mut self, i: usize, d: u8)
        requires
            old(self).wf(),
            i < 81,
            1 <= d <= 9,
        ensures
            final(self).flags() == old(self).flags().update(9 * i + d - 1, false),
    {
        self.cells.set(9 * i + d as usize - 1, false);
    }
}

/// What setting digit `d` at cell `i` does, from board `g` to board `h` with
/// outcome `r`: candidates only disappear; on success cell `i` has no other
/// digit left and the step propagated; every solution with `d` at `i` that `g`
/// admits survives, and then the step succeeds; and from a consistent board a
/// success leaves a consistent board where cell `i` holds `d` alone, no peer of
/// `i` holds `d`, and `d` was possible at `i` to begin with.
pub open spec fn assigned(g: Grid, h: Grid, i: int, d: int, r: bool) -> bool {
    &&& h.wf()
    &&& h.refines(&g)
    &&& r ==> forall|e: int| 1 <= e <= 9 && e != d ==> !#[trigger] h.has(i, e)
    &&& r ==> propagated(&g, &h)
    &&& forall|s: Seq<int>| #[trigger] is_solution(s) && g.admits(s) && s[i] == d ==> r && h.admits(s)
    &&& r && g.consistent() ==> {
        &&& h.consistent()
        &&& h.only(i, d)
        &&& forall|p: int| is_peer(i, p) ==> !#[trigger] h.has(p, d)
        &&& g.has(i, d)
    }
}

/// Setting one digit at two cells that are peers: once the first has
/// succeeded on a consistent board, the second fails.
pub proof fn lemma_peers_conflict(
    g0: Grid,
    g1: Grid,
    g2: Grid,
    i: int,
    p: int,
    d: int,
    r1: bool,
    r2: bool,
)
    requires
        g0.consistent(),
        is_peer(i, p),
        assigned(g0, g1, i, d, r1),
        r1,
        assigned(g1, g2, p, d, r2),
    ensures
        !r2,
{
}

/// Going from `g` to `h`, candidates only disappear, no cell becomes empty, and a
/// cell that is newly down to one digit has had that digit removed from its peers.
pub open spec fn keeps(g: &Grid, h: &Grid) -> bool {
    &&& h.refines(g)
    &&& forall|c: int| 0 <= c < 81 && g.nonempty(c) ==> #[trigger] h.nonempty(c)
    &&& forall|c: int, d: int, p: int|
        0 <= c < 81 && #[trigger] h.only(c, d) && !g.only(c, d) && is_peer(c, p) ==> !#[trigger] h.has(p, d)
}

/// What a successful propagation step keeps, going from `g` to `h`: all of
/// `keeps`, and a unit that had a place for a digit still has one.
pub open spec fn propagated(g: &Grid, h: &Grid) -> bool {
    &&& keeps(g, h)
    &&& forall|c: int, u: int, d: int|
        0 <= c < 81 && 0 <= u < 3 && 1 <= d <= 9 && g.covered(c, u, d) ==> #[trigger] h.covered(c, u, d)
}

/// Removing digit `d` from cell `i` leaves every unit with a place for every
/// digit it had one for, but for `d` in the units of `i`.
pub proof fn lemma_remove_coverage(g: &Grid, h: &Grid, i: int, d: int)
    requires
        g.wf(),
        0 <= i < 81,
        1 <= d <= 9,
        h.flags() == g.flags().update(9 * i + d - 1, false),
    ensures
        forall|c: int, v: int, e: int|
            0 <= c < 81 && 0 <= v < 3 && 1 <= e <= 9 && g.covered(c, v, e) ==>
            #[trigger] h.covered(c, v, e) || (e == d && units_of(c)[v] == units_of(i)[v]),
{
    assert forall|c: int, v: int, e: int|
        0 <= c < 81 && 0 <= v < 3 && 1 <= e <= 9 && g.covered(c, v, e) implies
        #[trigger] h.covered(c, v, e) || (e == d && units_of(c)[v] == units_of(i)[v]) by {
        let k = choose|k: int| 0 <= k < 9 && #[trigger] g.has(units_of(c)[v][k], e);
        let x = units_of(c)[v][k];
        lemma_unit_cells_in_range(c, v, k);
        if x == i && e == d {
            lemma_same_unit(c, i, v, k);
        } else {
            assert(h.has(x, e));
        }
    }
}

/// The text of one digit.
fn digit_text(d: u8) -> (r: &'static str)
    requires
        1 <= d <= 9,
    ensures
        r@ == seq![digit_char(d as int)],
{
    proof {
        reveal_strlit("1");
        reveal_strlit("2");
        reveal_strlit("3");
        reveal_strlit("4");
        reveal_strlit("5");
        reveal_strlit("6");
        reveal_strlit("7");
        reveal_strlit("8");
        reveal_strlit("9");
    }
    if d == 1 {
        "1"
    } else if d == 2 {
        "2"
    } else if d == 3 {
        "3"
    } else if d == 4 {
        "4"
    } else if d == 5 {
        "5"
    } else if d == 6 {
        "6"
    } else if d == 7 {
        "7"
    } else if d == 8 {
        "8"
    } else {
        "9"
    }
}

/// Any two full boards are the same board: reading a text of unknowns only
/// gives exactly what `Grid::new` gives.
pub proof fn lemma_full_boards_equal(g: &Grid, h: &Grid)
    requires
        g.full(),
        h.full(),
    ensures
        g.flags() == h.flags(),
{
    assert forall|x: int| 0 <= x < 729 implies #[trigger] g.flags()[x] == h.flags()[x] by {
        assert(g.has(x / 9, x % 9 + 1) && h.has(x / 9, x % 9 + 1));
    }
    assert(g.flags() =~= h.flags());
}

/// The full board is consistent.
pub proof fn lemma_full_consistent(g: &Grid)
    requires
        g.full(),
    ensures
        g.consistent(),
{
    assert forall|c: int| 0 <= c < 81 implies #[trigger] g.nonempty(c) by {
        assert(g.has(c, 1));
    }
    assert forall|c: int| 0 <= c < 81 implies #[trigger] g.settled_clean(c) by {
        assert forall|d: int, p: int| g.only(c, d) && is_peer(c, p) implies !#[trigger] g.has(p, d) by {
            if d == 1 {
                assert(g.has(c, 2));
            } else {
                assert(g.has(c, 1));
            }
        }
    }
    assert forall|c: int, u: int, d: int| 0 <= c < 81 && 0 <= u < 3 && 1 <= d <= 9 implies #[trigger] g.covered(c, u, d) by {
        lemma_unit_cells_in_range(c, u, 0);
        assert(g.has(units_of(c)[u][0], d));
    }
}

/// Removing one candidate from a cell that keeps another leaves every nonempty cell nonempty.
pub proof fn lemma_remove_keeps_nonempty(g: &Grid, h: &Grid, i: int, d: int)
    requires
        g.wf(),
        0 <= i < 81,
        1 <= d <= 9,
        h.flags() == g.flags().update(9 * i + d - 1, false),
        h.nonempty(i),
    ensures
        forall|c: int| 0 <= c < 81 && g.nonempty(c) ==> #[trigger] h.nonempty(c),
{
    assert forall|c: int| 0 <= c < 81 && g.nonempty(c) implies #[trigger] h.nonempty(c) by {
        if c != i {
            let f = choose|f: int| 1 <= f <= 9 && #[trigger] g.has(c, f);
            assert(h.has(c, f));
        }
    }
}

/// After removing `d` from cell `i` leaves it holding `d2` alone, and `d2` is
/// then cleared from its peers, every newly settled cell is clean.
pub proof fn lemma_settled_after_peers(g0: &Grid, g1: &Grid, h: &Grid, i: int, d: int, d2: int)
    requires
        g0.wf(),
        0 <= i < 81,
        1 <= d <= 9,
        g1.flags() == g0.flags().update(9 * i + d - 1, false),
        g1.only(i, d2),
        forall|c: int| 0 <= c < 81 && g0.nonempty(c) ==> #[trigger] g1.nonempty(c),
        h.refines(g1),
        propagated(g1, h),
        forall|p: int| is_peer(i, p) ==> !#[trigger] h.has(p, d2),
    ensures
        keeps(g0, h),
{
    assert forall|c: int, e: int, p: int|
        0 <= c < 81 && #[trigger] h.only(c, e) && !g0.only(c, e) && is_peer(c, p) implies !#[trigger] h.has(p, e) by {
        if g1.only(c, e) {
            if c != i {
                assert forall|f: int| 1 <= f <= 9 implies #[trigger] g0.has(c, f) == g1.has(c, f) by {}
                assert(g0.only(c, e));
            }
            assert(e == d2);
        }
    }
}

/// Removing `d` from cell `i` where two or more candidates remain settles no cell.
pub proof fn lemma_settled_untouched(g0: &Grid, g1: &Grid, i: int, d: int)
    requires
        g0.wf(),
        0 <= i < 81,
        1 <= d <= 9,
        g1.flags() == g0.flags().update(9 * i + d - 1, false),
        g1.size(i) >= 2,
        forall|c: int| 0 <= c < 81 && g0.nonempty(c) ==> #[trigger] g1.nonempty(c),
    ensures
        keeps(g0, g1),
{
    lemma_cell_size(g1, i);
    assert forall|c: int, e: int, p: int|
        0 <= c < 81 && #[trigger] g1.only(c, e) && !g0.only(c, e) && is_peer(c, p) implies !#[trigger] g1.has(p, e) by {
        if c != i {
            assert forall|f: int| 1 <= f <= 9 implies #[trigger] g0.has(c, f) == g1.has(c, f) by {}
        }
    }
}

/// Two boards with the same candidates agree on everything said of them.
pub proof fn lemma_flags_equal(g: &Grid, h: &Grid)
    requires
        g.flags() == h.flags(),
    ensures
        g.consistent() == h.consistent(),
        g.solved() == h.solved(),
        g.refines(h),
        h.refines(g),
        forall|c: int| #[trigger] g.cell(c) == h.cell(c),
        forall|c: int, d: int| #![trigger g.only(c, d)] #![trigger h.only(c, d)] g.only(c, d) == h.only(c, d),
        forall|s: Seq<int>| #[trigger] g.admits(s) == h.admits(s),
{
    assert forall|c: int, d: int| #![trigger g.has(c, d)] #![trigger h.has(c, d)] g.has(c, d) == h.has(c, d) by {}
    assert forall|c: int| #[trigger] g.cell(c) == h.cell(c) by {}
    assert forall|c: int, d: int| #![trigger g.only(c, d)] #![trigger h.only(c, d)] g.only(c, d) == h.only(c, d) by {}
    assert forall|c: int| #![trigger g.nonempty(c)] #![trigger h.nonempty(c)] g.nonempty(c) == h.nonempty(c) by {
        if g.nonempty(c) {
            let d = choose|d: int| 1 <= d <= 9 && #[trigger] g.has(c, d);
            assert(h.has(c, d));
        }
        if h.nonempty(c) {
            let d = choose|d: int| 1 <= d <= 9 && #[trigger] h.has(c, d);
            assert(g.has(c, d));
        }
    }
    assert forall|c: int| #![trigger g.settled_clean(c)] #![trigger h.settled_clean(c)] g.settled_clean(c) == h.settled_clean(c) by {}
    assert forall|c: int, u: int, d: int| #![trigger g.covered(c, u, d)] #![trigger h.covered(c, u, d)] g.covered(c, u, d) == h.covered(c, u, d) by {
        if g.covered(c, u, d) {
            let k = choose|k: int| 0 <= k < 9 && #[trigger] g.has(units_of(c)[u][k], d);
            assert(h.has(units_of(c)[u][k], d));
        }
        if h.covered(c, u, d) {
            let k = choose|k: int| 0 <= k < 9 && #[trigger] h.has(units_of(c)[u][k], d);
            assert(g.has(units_of(c)[u][k], d));
        }
    }
    assert forall|c: int| #![trigger g.size(c)] #![trigger h.size(c)] g.size(c) == h.size(c) by {}
}

/// Refinement is transitive.
pub proof fn lemma_refines_trans(a: &Grid, b: &Grid, c: &Grid)
    requires
        b.refines(a),
        c.refines(b),
    ensures
        c.refines(a),
{
}

/// Refining a board never raises its number of candidates, and dropping one lowers it.
pub proof fn lemma_refines_total(g: &Grid, h: &Grid)
    requires
        g.wf(),
        h.wf(),
        h.refines(g),
    ensures
        h.total() <= g.total(),
        (exists|c: int, d: int| 0 <= c < 81 && 1 <= d <= 9 && #[trigger] g.has(c, d) && !h.has(c, d))
            ==> h.total() < g.total(),
{
    assert forall|k: int| 0 <= k < 729 && #[trigger] h.flags()[k] implies g.flags()[k] by {
        let (c, d) = (k / 9, k % 9 + 1);
        assert(h.has(c, d));
    }
    if exists|c: int, d: int| 0 <= c < 81 && 1 <= d <= 9 && #[trigger] g.has(c, d) && !h.has(c, d) {
        let (c, d) = choose|c: int, d: int| 0 <= c < 81 && 1 <= d <= 9 && #[trigger] g.has(c, d) && !h.has(c, d);
        let k = 9 * c + d - 1;
        assert(g.flags()[k] && !h.flags()[k]);
    }
    lemma_trues_le(g.flags(), h.flags());
}

/// How the size of a cell reads in its candidates.
pub proof fn lemma_cell_size(g: &Grid, i: int)
    requires
        g.wf(),
        0 <= i < 81,
    ensures
        g.size(i) == 0 <==> !g.nonempty(i),
        forall|e: int| 1 <= e <= 9 && #[trigger] g.has(i, e) ==> (g.size(i) == 1 <==> g.only(i, e)),
        g.size(i) <= 9,
{
    let cell = g.cell(i);
    assert forall|k: int| 0 <= k < 9 implies #[trigger] cell[k] == g.has(i, k + 1) by {}
    lemma_trues_zero(cell);
    if g.size(i) == 0 {
        assert forall|d: int| 1 <= d <= 9 implies !#[trigger] g.has(i, d) by {
            assert(!cell[d - 1]);
        }
    } else {
        assert(exists|k: int| 0 <= k < 9 && #[trigger] cell[k]);
        let k = choose|k: int| 0 <= k < 9 && #[trigger] cell[k];
        assert(g.has(i, k + 1));
    }
    assert forall|e: int| 1 <= e <= 9 && #[trigger] g.has(i, e) implies (g.size(i) == 1 <==> g.only(i, e)) by {
        lemma_trues_one(cell, e - 1);
        if g.size(i) == 1 {
            assert forall|f: int| 1 <= f <= 9 && f != e implies !#[trigger] g.has(i, f) by {
                assert(!cell[f - 1]);
            }
        }
        if g.only(i, e) {
            assert forall|m: int| 0 <= m < 9 && m != e - 1 implies !#[trigger] cell[m] by {
                assert(!g.has(i, m + 1));
            }
        }
    }
    lemma_trues_le(Seq::new(9, |k: int| true), cell);
    lemma_all_true_nine();
}

/// Nine `true` entries count nine.
proof fn lemma_all_true_nine()
    ensures
        trues(Seq::new(9, |k: int| true)) == 9,
{
    let s = Seq::new(9, |k: int| true);
    reveal_with_fuel(trues, 10);
    assert(s.drop_last().drop_last().drop_last().drop_last().drop_last().drop_last().drop_last().drop_last().drop_last() =~= Seq::<bool>::empty());
}

/// Composing two propagation steps gives a propagation step.
pub proof fn lemma_propagated_trans(a: &Grid, b: &Grid, c: &Grid)
    requires
        propagated(a, b),
        propagated(b, c),
    ensures
        propagated(a, c),
{
    lemma_keeps_trans(a, b, c);
}

/// Composing two steps that keep the board's shape keeps it.
pub proof fn lemma_keeps_trans(a: &Grid, b: &Grid, c: &Grid)
    requires
        keeps(a, b),
        keeps(b, c),
    ensures
        keeps(a, c),
{
    assert forall|x: int, d: int, p: int|
        0 <= x < 81 && #[trigger] c.only(x, d) && !a.only(x, d) && is_peer(x, p) implies !#[trigger] c.has(p, d) by {
        if b.only(x, d) {
            assert(!b.has(p, d));
        }
    }
}

/// A step that keeps the shape of a consistent board gives a consistent board.
pub proof fn lemma_propagated_consistent(g: &Grid, h: &Grid)
    requires
        g.consistent(),
        h.wf(),
        propagated(g, h),
    ensures
        h.consistent(),
{
    assert forall|c: int| 0 <= c < 81 implies #[trigger] h.settled_clean(c) by {
        assert forall|d: int, p: int| h.only(c, d) && is_peer(c, p) implies !#[trigger] h.has(p, d) by {
            if g.only(c, d) {
                assert(g.settled_clean(c));
                assert(!g.has(p, d));
            }
        }
    }
}

/// A cell that lies in unit `u` of cell `c` has that same unit as its own unit `u`.
pub proof fn lemma_same_unit(c: int, i: int, u: int, k: int)
    requires
        0 <= c < 81,
        0 <= u < 3,
        0 <= k < 9,
        units_of(c)[u][k] == i,
    ensures
        units_of(c)[u] == units_of(i)[u],
{
    if u == 0 {
        assert(row_of(i) == row_of(c));
        assert(units_of(c)[u] =~= units_of(i)[u]);
    } else if u == 1 {
        assert(col_of(i) == col_of(c));
        assert(units_of(c)[u] =~= units_of(i)[u]);
    } else {
        assert(row_of(i) == (row_of(c) / 3) * 3 + k / 3);
        assert(col_of(i) == (col_of(c) / 3) * 3 + k % 3);
        assert(box_start(i) == box_start(c));
        assert(units_of(c)[u] =~= units_of(i)[u]);
    }
}

} // verus!
