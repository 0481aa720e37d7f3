use sudoku::geometry::{box_cells, col_cells, dx, ix, peers, row_cells, units};

#[test]
fn util_test_peers_0() {
    assert_eq!(
        peers(0),
        vec![1, 2, 3, 4, 5, 6, 7, 8, 9, 10, 11, 18, 19, 20, 27, 36, 45, 54, 63, 72]
    );
}

#[test]
fn util_test_peers_1() {
    assert_eq!(
        peers(1),
        vec![0, 2, 3, 4, 5, 6, 7, 8, 9, 10, 11, 18, 19, 20, 28, 37, 46, 55, 64, 73]
    );
}

#[test]
fn test_peers_6() {
    assert_eq!(
        peers(6),
        vec![0, 1, 2, 3, 4, 5, 7, 8, 15, 16, 17, 24, 25, 26, 33, 42, 51, 60, 69, 78]
    );
}

#[test]
fn test_row_cells_0() {
    assert_eq!(row_cells(0), vec![0, 1, 2, 3, 4, 5, 6, 7, 8]);
}

#[test]
fn test_row_cells_1() {
    assert_eq!(row_cells(1), vec![0, 1, 2, 3, 4, 5, 6, 7, 8]);
}

#[test]
fn test_row_cells_9() {
    assert_eq!(row_cells(9), vec![9, 10, 11, 12, 13, 14, 15, 16, 17]);
}

#[test]
fn test_col_cells_0() {
    assert_eq!(col_cells(0), vec![0, 9, 18, 27, 36, 45, 54, 63, 72]);
}

#[test]
fn test_col_cells_1() {
    assert_eq!(col_cells(1), vec![1, 10, 19, 28, 37, 46, 55, 64, 73]);
}

#[test]
fn test_col_cells_6() {
    assert_eq!(col_cells(6), vec![6, 15, 24, 33, 42, 51, 60, 69, 78]);
}

#[test]
fn test_box_cells_0() {
    assert_eq!(box_cells(0), vec![0, 1, 2, 9, 10, 11, 18, 19, 20]);
}

#[test]
fn test_box_cells_6() {
    assert_eq!(box_cells(6), vec![6, 7, 8, 15, 16, 17, 24, 25, 26]);
}

#[test]
fn util_test_ix() {
    assert_eq!(ix(0, 0), 0);
    assert_eq!(ix(0, 1), 1);
    assert_eq!(ix(1, 0), 9);
    assert_eq!(ix(0, 8), 8);
    assert_eq!(ix(8, 0), 72);
    assert_eq!(ix(8, 8), 80);
}

#[test]
fn util_test_dx() {
    assert_eq!((0, 0), dx(0));
    assert_eq!((0, 1), dx(1));
    assert_eq!((1, 0), dx(9));
    assert_eq!((0, 8), dx(8));
    assert_eq!((8, 0), dx(72));
    assert_eq!((8, 7), dx(79));
    assert_eq!((8, 8), dx(80));
}

#[test]
fn peers_have_twenty_cells_sharing_a_unit() {
    for i in 0..81usize {
        let p = peers(i);
        assert_eq!(p.len(), 20);
        assert!(!p.contains(&i));
        let u = units(i);
        for j in &p {
            assert!(u[0].contains(j) || u[1].contains(j) || u[2].contains(j));
        }
        for k in 1..p.len() {
            assert!(p[k - 1] < p[k]);
        }
    }
}

#[test]
fn ix_and_dx_are_inverse() {
    for i in 0..81usize {
        let (r, c) = dx(i);
        assert_eq!(ix(r, c), i);
    }
    for r in 0..9u8 {
        for c in 0..9u8 {
            assert_eq!(dx(ix(r, c)), (r, c));
        }
    }
}

#[test]
fn units_are_row_column_box() {
    let u = units(40);
    assert_eq!(u.len(), 3);
    assert_eq!(u[0], vec![36, 37, 38, 39, 40, 41, 42, 43, 44]);
    assert_eq!(u[1], vec![4, 13, 22, 31, 40, 49, 58, 67, 76]);
    assert_eq!(u[2], vec![30, 31, 32, 39, 40, 41, 48, 49, 50]);
}
