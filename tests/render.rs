use sudoku::grid::Grid;
use sudoku::search::Puzzle;

const EASY: &str = "003020600900305001001806400008102900700000008006708200002609500800203009005010300";

#[test]
fn render_full_board_is_blank() {
    let g = Grid::new();
    let row = "         |          |         ";
    let rule = "---------+----------+----------";
    let mut expected = String::new();
    for r in 0..9 {
        if r > 0 {
            expected.push('\n');
        }
        if r == 3 || r == 6 {
            expected.push_str(rule);
            expected.push('\n');
        }
        expected.push_str(row);
    }
    assert_eq!(g.to_string(), expected);
}

#[test]
fn render_solved_board() {
    let p = Puzzle::from_string(&EASY.to_string()).ok().unwrap();
    let sol = p.solve().unwrap();
    let expected = "4  8  3  | 9  2  1  | 6  5  7 \n9  6  7  | 3  4  5  | 8  2  1 \n2  5  1  | 8  7  6  | 4  9  3 \n---------+----------+----------\n5  4  8  | 1  3  2  | 9  7  6 \n7  2  9  | 5  6  4  | 1  3  8 \n1  3  6  | 7  9  8  | 2  4  5 \n---------+----------+----------\n3  7  2  | 6  8  9  | 5  1  4 \n8  1  4  | 2  5  3  | 7  6  9 \n6  9  5  | 4  1  7  | 3  8  2 ";
    assert_eq!(sol.to_string(), expected);
}

#[test]
fn render_uses_widest_cell() {
    let mut g = Grid::new();
    assert!(g.set(0, 1));
    let text = g.to_string();
    let first = text.lines().next().unwrap();
    assert!(first.starts_with("1  23456789 23456789 | 23456789"));
    assert_eq!(text.lines().count(), 11);
}

#[test]
fn rendered_solution_parses_back_to_itself() {
    let p = Puzzle::from_string(&EASY.to_string()).ok().unwrap();
    let sol = p.solve().unwrap();
    let text = sol.to_string();
    let digits: String = text.chars().filter(|c| c.is_ascii_digit()).collect();
    assert_eq!(digits.len(), 81);
    let back = Grid::from_string(&digits).unwrap();
    assert!(back.is_solved());
    for i in 0..81 {
        assert_eq!(back.at(i), sol.at(i));
    }
    assert_eq!(back.to_string(), text);
}
