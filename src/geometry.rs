//! Fixed 9x9 board geometry: cell indices, the three units of a cell, and its peers.
use vstd::prelude::*;

verus! {

/// Row of a cell index (row-major layout).
pub open spec fn row_of(i: int) -> int {
    i / 9
}

/// Column of a cell index.
pub open spec fn col_of(i: int) -> int {
    i % 9
}

/// Index of the top-left cell of the 3x3 box that holds cell `i`.
pub open spec fn box_start(i: int) -> int {
    (row_of(i) / 3) * 27 + (col_of(i) / 3) * 3
}

/// Two cells lie in the same row, the same column or the same box.
pub open spec fn shares_unit(i: int, j: int) -> bool {
    row_of(i) == row_of(j) || col_of(i) == col_of(j) || box_start(i) == box_start(j)
}

/// Cell `j` is a peer of cell `i`: a different cell that shares a unit with it.
pub open spec fn is_peer(i: int, j: int) -> bool {
    0 <= j < 81 && j != i && shares_unit(i, j)
}

/// Linear index of the cell at `row`, `col`.
pub fn ix(row: u8, col: u8) -> (r: usize)
    requires
        row < 9,
        col < 9,
    ensures
        r == row * 9 + col,
        r < 81,
        row_of(r as int) == row,
        col_of(r as int) == col,
{
    (row * 9 + col) as usize
}

/// Row and column of cell `i`.
pub fn dx(i: usize) -> (r: (u8, u8))
    requires
        i < 81,
    ensures
        r.0 == row_of(i as int),
        r.1 == col_of(i as int),
        r.0 < 9,
        r.1 < 9,
{
    let i = i as u8;
    (i / 9, i % 9)
}


/// The cells of the row of `i`, left to right.
pub open spec fn row_unit(i: int) -> Seq<int> {
    Seq::new(9, |k: int| row_of(i) * 9 + k)
}

/// The cells of the column of `i`, top to bottom.
pub open spec fn col_unit(i: int) -> Seq<int> {
    Seq::new(9, |k: int| k * 9 + col_of(i))
}

/// The cells of the box of `i`, in ascending order.
pub open spec fn box_unit(i: int) -> Seq<int> {
    Seq::new(9, |k: int| box_start(i) + (k / 3) * 9 + k % 3)
}

/// The row, column and box of `i`, in that order.
pub open spec fn units_of(i: int) -> Seq<Seq<int>> {
    seq![row_unit(i), col_unit(i), box_unit(i)]
}

/// Every peer of `i` lies in one of the three units of `i`.
pub proof fn lemma_peer_in_units(i: int, j: int)
    requires
        0 <= i < 81,
        is_peer(i, j),
    ensures
        exists|u: int, k: int| 0 <= u < 3 && 0 <= k < 9 && #[trigger] units_of(i)[u][k] == j,
{
    if row_of(i) == row_of(j) {
        assert(units_of(i)[0][col_of(j)] == j);
    } else if col_of(i) == col_of(j) {
        assert(units_of(i)[1][row_of(j)] == j);
    } else {
        let k = (row_of(j) % 3) * 3 + col_of(j) % 3;
        assert(units_of(i)[2][k] == j);
    }
}

/// `ix` and `dx` undo each other: the cell at a row and column has that row
/// and column, and every cell is the one at its own row and column.
pub proof fn lemma_index_coordinates_inverse(row: int, col: int, i: int)
    requires
        0 <= row < 9,
        0 <= col < 9,
        0 <= i < 81,
    ensures
        row_of(row * 9 + col) == row,
        col_of(row * 9 + col) == col,
        0 <= row * 9 + col < 81,
        row_of(i) * 9 + col_of(i) == i,
        0 <= row_of(i) < 9,
        0 <= col_of(i) < 9,
{
}

/// Every cell of every unit lies on the board.
pub proof fn lemma_unit_cells_in_range(i: int, u: int, k: int)
    requires
        0 <= i < 81,
        0 <= u < 3,
        0 <= k < 9,
    ensures
        0 <= units_of(i)[u][k] < 81,
{
}

/// Cell indices held by `v` equal the integers of `s`, position by position.
pub open spec fn cells_are(v: Seq<usize>, s: Seq<int>) -> bool {
    v.len() == s.len() && forall|k: int| 0 <= k < s.len() ==> v[k] as int == s[k]
}

/// Number of peers of `i` below index `j`.
pub open spec fn peer_count(i: int, j: int) -> nat
    decreases j,
{
    if j <= 0 {
        0
    } else {
        peer_count(i, j - 1) + if is_peer(i, j - 1) { 1nat } else { 0nat }
    }
}

/// Number of peers of `i` in row `r`: the rest of its own row, three in each
/// other row of its band, one (its column) elsewhere.
pub open spec fn row_peers(i: int, r: int) -> nat {
    if r == row_of(i) {
        8
    } else if r / 3 == row_of(i) / 3 {
        3
    } else {
        1
    }
}

/// Counting the peers of `i` over one row of the board.
proof fn lemma_row_count(i: int, r: int)
    requires
        0 <= i < 81,
        0 <= r < 9,
    ensures
        peer_count(i, 9 * r + 9) == peer_count(i, 9 * r) + row_peers(i, r),
{
    reveal_with_fuel(peer_count, 10);
    let b = 9 * r;
    assert(row_of(b) == r && col_of(b) == 0);
    assert(row_of(b + 1) == r && col_of(b + 1) == 1);
    assert(row_of(b + 2) == r && col_of(b + 2) == 2);
    assert(row_of(b + 3) == r && col_of(b + 3) == 3);
    assert(row_of(b + 4) == r && col_of(b + 4) == 4);
    assert(row_of(b + 5) == r && col_of(b + 5) == 5);
    assert(row_of(b + 6) == r && col_of(b + 6) == 6);
    assert(row_of(b + 7) == r && col_of(b + 7) == 7);
    assert(row_of(b + 8) == r && col_of(b + 8) == 8);
}

/// Every cell has exactly 20 peers.
pub proof fn lemma_twenty_peers(i: int)
    requires
        0 <= i < 81,
    ensures
        peer_count(i, 81) == 20,
{
    lemma_row_count(i, 0);
    lemma_row_count(i, 1);
    lemma_row_count(i, 2);
    lemma_row_count(i, 3);
    lemma_row_count(i, 4);
    lemma_row_count(i, 5);
    lemma_row_count(i, 6);
    lemma_row_count(i, 7);
    lemma_row_count(i, 8);
    assert(peer_count(i, 0) == 0);
}

/// The cells of the column that holds `i`, top to bottom.
pub fn col_cells(i: usize) -> (r: Vec<usize>)
    requires
        i < 81,
    ensures
        cells_are(r@, col_unit(i as int)),
{
    let (_row, col) = dx(i);
    let mut r: Vec<usize> = Vec::new();
    let mut row: u8 = 0;
    while row < 9
        invariant
            row <= 9,
            col == col_of(i as int),
            col < 9,
            r@.len() == row,
            forall|k: int| 0 <= k < row ==> r@[k] as int == k * 9 + col_of(i as int),
        decreases 9 - row,
    {
        r.push(ix(row, col));
        row = row + 1;
    }
    r
}

/// The cells of the row that holds `i`, left to right.
pub fn row_cells(i: usize) -> (r: Vec<usize>)
    requires
        i < 81,
    ensures
        cells_are(r@, row_unit(i as int)),
{
    let (row, _col) = dx(i);
    let mut r: Vec<usize> = Vec::new();
    let mut col: u8 = 0;
    while col < 9
        invariant
            col <= 9,
            row == row_of(i as int),
            row < 9,
            r@.len() == col,
            forall|k: int| 0 <= k < col ==> r@[k] as int == row_of(i as int) * 9 + k,
        decreases 9 - col,
    {
        r.push(ix(row, col));
        col = col + 1;
    }
    r
}

/// The cells of the 3x3 box that holds `i`, in ascending order.
pub fn box_cells(i: usize) -> (r: Vec<usize>)
    requires
        i < 81,
    ensures
        cells_are(r@, box_unit(i as int)),
{
    let (row, col) = dx(i);
    let row0: u8 = row / 3 * 3;
    let col0: u8 = col / 3 * 3;
    assert(box_start(i as int) == row0 * 9 + col0);
    let mut r: Vec<usize> = Vec::new();
    let mut k: u8 = 0;
    while k < 9
        invariant
            k <= 9,
            row0 <= 6,
            col0 <= 6,
            box_start(i as int) == row0 * 9 + col0,
            r@.len() == k,
            forall|m: int| 0 <= m < k ==> r@[m] as int == box_start(i as int) + (m / 3) * 9 + m % 3,
        decreases 9 - k,
    {
        r.push(ix(row0 + k / 3, col0 + k % 3));
        k = k + 1;
    }
    r
}

/// The three units of `i`: its row, its column and its box.
pub fn units(i: usize) -> (r: Vec<Vec<usize>>)
    requires
        i < 81,
    ensures
        r@.len() == 3,
        forall|u: int| 0 <= u < 3 ==> cells_are(#[trigger] r@[u]@, units_of(i as int)[u]),
{
    let r = vec![row_cells(i), col_cells(i), box_cells(i)];
    r
}

/// Whether cell `j` is a peer of cell `i`.
fn peer_test(i: usize, j: usize) -> (r: bool)
    requires
        i < 81,
        j < 81,
    ensures
        r == is_peer(i as int, j as int),
{
    let (ri, ci) = dx(i);
    let (rj, cj) = dx(j);
    j != i && (ri == rj || ci == cj || (ri / 3 == rj / 3 && ci / 3 == cj / 3))
}

/// The 20 peers of `i`, in ascending order.
pub fn peers(i: usize) -> (r: Vec<usize>)
    requires
        i < 81,
    ensures
        r@.len() == 20,
        forall|a: int, b: int| 0 <= a < b < r@.len() ==> r@[a] < r@[b],
        forall|j: usize| is_peer(i as int, j as int) <==> r@.contains(j),
        forall|k: int| 0 <= k < r@.len() ==> is_peer(i as int, #[trigger] r@[k] as int),
{
    let mut r: Vec<usize> = Vec::new();
    let mut j: usize = 0;
    while j < 81
        invariant
            i < 81,
            j <= 81,
            r@.len() == peer_count(i as int, j as int),
            forall|a: int, b: int| 0 <= a < b < r@.len() ==> r@[a] < r@[b],
            forall|k: int| 0 <= k < r@.len() ==> #[trigger] r@[k] < j,
            forall|k: int| 0 <= k < r@.len() ==> is_peer(i as int, #[trigger] r@[k] as int),
            forall|m: usize| m < j && is_peer(i as int, m as int) ==> r@.contains(m),
        decreases 81 - j,
    {
        if peer_test(i, j) {
            let ghost before = r@;
            r.push(j);
            assert(r@[r@.len() - 1] == j);
            assert forall|m: usize| before.contains(m) implies r@.contains(m) by {
                let k = choose|k: int| 0 <= k < before.len() && before[k] == m;
                assert(r@[k] == m);
            }
        }
        j = j + 1;
    }
    proof {
        lemma_twenty_peers(i as int);
    }
    r
}

} // verus!
