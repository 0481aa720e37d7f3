use sudoku::geometry::peers;
use sudoku::grid::{Grid, ParseError};

#[test]
fn test_new() {
    let g = Grid::new();
    for i in 0..81 {
        assert_eq!(g.at(i), "123456789");
    }
}

#[test]
fn test_single_set() {
    let mut g = Grid::new();
    let succeeded = g.set(0, 1);
    assert!(succeeded);
    assert_eq!(g.at(0), "1");
    for i in peers(0) {
        assert!(!g.at(i).contains("1"));
    }
}

#[test]
fn test_successive_set() {
    let mut g = Grid::new();
    let succeeded1 = g.set(0, 1);
    assert!(succeeded1);
    let succeeded2 = g.set(1, 2);
    assert!(succeeded2);
    assert_eq!(g.at(1), "2");
    for i in peers(1) {
        assert!(!g.at(i).contains("2"));
    }
}

#[test]
fn test_successive_set_2() {
    let mut g = Grid::new();
    let succeeded1 = g.set(0, 4);
    assert!(succeeded1);
    let succeeded2 = g.set(6, 8);
    assert!(succeeded2);
}

#[test]
fn test_incompatible_set() {
    let mut g = Grid::new();
    let succeeded1 = g.set(0, 1);
    assert!(succeeded1);
    let succeeded2 = g.set(1, 1);
    assert!(!succeeded2);
}

#[test]
fn is_solved_only_when_every_cell_has_one_candidate() {
    let g = Grid::new();
    assert!(!g.is_solved());
    let mut h = Grid::new();
    assert!(h.set(0, 5));
    assert!(!h.is_solved());
    assert_eq!(h.count(0), 1);
    assert_eq!(h.count(1), 8);
}

#[test]
fn has_digit_follows_set() {
    let mut g = Grid::new();
    assert!(g.set(40, 7));
    assert!(g.has_digit(40, 7));
    assert!(!g.has_digit(40, 6));
    assert!(!g.has_digit(41, 7));
    assert!(g.has_digit(0, 7));
}

#[test]
fn copy_is_independent() {
    let mut g = Grid::new();
    let h = g.copy();
    assert!(g.set(0, 3));
    assert_eq!(g.at(0), "3");
    assert_eq!(h.at(0), "123456789");
}

#[test]
fn parse_rejects_wrong_length() {
    let s = "0".repeat(80);
    assert!(matches!(Grid::from_string(&s), Err(ParseError::BadLength)));
    let s = "0".repeat(82);
    assert!(matches!(Grid::from_string(&s), Err(ParseError::BadLength)));
}

#[test]
fn parse_rejects_bad_character() {
    let mut s = "0".repeat(80);
    s.push('x');
    assert!(matches!(Grid::from_string(&s), Err(ParseError::BadCharacter)));
}

#[test]
fn parse_rejects_duplicate_in_row() {
    let mut s = String::from("11");
    s.push_str(&"0".repeat(79));
    assert!(matches!(Grid::from_string(&s), Err(ParseError::Contradiction)));
}

#[test]
fn parse_all_zeros_gives_new_grid() {
    let s = "0".repeat(81);
    let g = Grid::from_string(&s).unwrap();
    assert!(!g.is_solved());
    let n = Grid::new();
    for i in 0..81 {
        assert_eq!(g.at(i), n.at(i));
    }
}

#[test]
fn parse_strips_newlines() {
    let mut s = String::new();
    for _ in 0..9 {
        s.push_str("000000000\n");
    }
    let g = Grid::from_string(&s).unwrap();
    assert_eq!(g.at(80), "123456789");
}

#[test]
fn parse_places_givens() {
    let mut s = String::from("5");
    s.push_str(&"0".repeat(80));
    let g = Grid::from_string(&s).unwrap();
    assert_eq!(g.at(0), "5");
    assert_eq!(g.at(1), "12346789");
}

#[test]
fn all_values_lists_every_cell() {
    let mut g = Grid::new();
    assert!(g.set(10, 9));
    let v = g.all_values();
    assert_eq!(v.len(), 81);
    assert_eq!(v[10], "9");
    assert_eq!(v[0], "12345678");
    assert_eq!(v[80], "123456789");
}

#[test]
fn get_reads_row_and_column() {
    let mut g = Grid::new();
    assert!(g.set(13, 6));
    assert_eq!(g.get(1, 4), "6");
    assert_eq!(g.get(4, 1), "123456789");
    assert_eq!(g.get(1, 5), "12345789");
}

#[test]
fn parse_rejects_duplicate_in_box() {
    let mut s = String::from("7");
    s.push_str(&"0".repeat(9));
    s.push('7');
    s.push_str(&"0".repeat(70));
    assert!(matches!(Grid::from_string(&s), Err(ParseError::Contradiction)));
}

#[test]
fn boards_are_well_formed() {
    assert!(Grid::new().is_well_formed());
    assert!(Grid::from_string(&"0".repeat(81)).unwrap().is_well_formed());
}
