use sudoku::grid::Grid;
use sudoku::search::{search, select_next, Puzzle};

const EASY: &str = "003020600900305001001806400008102900700000008006708200002609500800203009005010300";
const EASY_SOLUTION: &str = "483921657967345821251876493548132976729564138136798245372689514814253769695417382";

fn digits(g: &Grid) -> String {
    let mut s = String::new();
    for i in 0..81 {
        s.push_str(&g.at(i));
    }
    s
}

#[test]
fn easy_puzzle_is_solved_exactly() {
    let p = Puzzle::from_string(&EASY.to_string()).ok().unwrap();
    let sol = p.solve().unwrap();
    assert!(sol.is_solved());
    assert_eq!(digits(&sol), EASY_SOLUTION);
}

#[test]
fn solved_puzzle_is_returned_unchanged() {
    let g = Grid::from_string(&EASY_SOLUTION.to_string()).unwrap();
    assert!(g.is_solved());
    let sol = search(&g).unwrap();
    assert_eq!(digits(&sol), EASY_SOLUTION);
}

#[test]
fn empty_puzzle_has_a_solution() {
    let g = Grid::from_string(&"0".repeat(81)).unwrap();
    let sol = search(&g).unwrap();
    assert!(sol.is_solved());
    let d = digits(&sol);
    assert_eq!(d.len(), 81);
    assert_eq!(&d[0..9], "123456789");
}

#[test]
fn select_next_picks_fewest_candidates() {
    let g = Grid::new();
    assert_eq!(select_next(&g), Some(0));
    let mut h = Grid::new();
    assert!(h.set(0, 1));
    assert!(h.set(1, 2));
    assert_eq!(select_next(&h), Some(2));
    let s = Grid::from_string(&EASY_SOLUTION.to_string()).unwrap();
    assert_eq!(select_next(&s), None);
}
