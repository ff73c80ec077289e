use sudoku_gen::fast_solver::FastBruteForceSolver;
use sudoku_gen::sudoku::Sudoku;

fn grid(text: &str) -> Sudoku {
    let mut cells = [0u8; 81];
    for (i, c) in text.chars().enumerate() {
        cells[i] = c.to_digit(10).map(|v| v as u8).unwrap_or(0);
    }
    Sudoku(cells)
}

const SOLVED: &str = "534678912672195348198342567859761423426853791713924856961537284287419635345286179";

/// The solved grid without the four corners of a rectangle that holds 5 and 4
/// crosswise: the corners can be filled in two ways.
fn two_solutions() -> Sudoku {
    let mut g = grid(SOLVED);
    for idx in [9 * 6 + 3, 9 * 6 + 8, 9 * 7 + 3, 9 * 7 + 8] {
        g.0[idx] = 0;
    }
    g
}

fn is_solved_grid(g: &Sudoku) -> bool {
    for i in 0..81 {
        if g.0[i] < 1 || g.0[i] > 9 {
            return false;
        }
        for j in 0..81 {
            let peers = i != j
                && (i / 9 == j / 9 || i % 9 == j % 9 || (i / 27 == j / 27 && (i % 9) / 3 == (j % 9) / 3));
            if peers && g.0[i] == g.0[j] {
                return false;
            }
        }
    }
    true
}

#[test]
fn solved_grid_has_one_solution() {
    let g = grid(SOLVED);
    assert!(FastBruteForceSolver::has_solution(&g));
    assert!(FastBruteForceSolver::has_unique_solution(&g));
    assert_eq!(FastBruteForceSolver::count_solutions(&g), 1);
}

#[test]
fn grid_with_two_solutions() {
    let g = two_solutions();
    let solver = FastBruteForceSolver::from_sudoku(&g).ok().unwrap();
    assert_eq!(solver.count_solutions_up_to(1), 1);
    assert_eq!(solver.count_solutions_up_to(2), 2);
    assert_eq!(solver.count_solutions_up_to(10), 2);
    assert!(FastBruteForceSolver::has_solution(&g));
    assert!(!FastBruteForceSolver::has_unique_solution(&g));
    assert_eq!(FastBruteForceSolver::count_solutions(&g), 2);
}

#[test]
fn both_solutions_are_listed() {
    let g = two_solutions();
    let solver = FastBruteForceSolver::from_sudoku(&g).ok().unwrap();
    let sols = solver.all_solutions_up_to(10);
    assert_eq!(sols.len(), 2);
    assert!(sols[0] != sols[1]);
    for s in &sols {
        assert!(is_solved_grid(s));
        for i in 0..81 {
            assert!(g.0[i] == 0 || g.0[i] == s.0[i]);
        }
    }
    assert!(sols.contains(&grid(SOLVED)));
}

#[test]
fn limit_zero_finds_nothing() {
    let solver = FastBruteForceSolver::from_sudoku(&grid(SOLVED)).ok().unwrap();
    assert_eq!(solver.count_solutions_up_to(0), 0);
}

#[test]
fn seventeen_clue_puzzles_have_a_unique_solution() {
    let puzzles = [
        "000000010400000000020000000000050407008000300001090000300400200050100000000806000",
        "000000010400000000020000000000050604008000300001090000300400200050100000000807000",
        "000000012000035000000600070700000300000400800100000000000120000080000040050000600",
        "000000012003600000000007000410020000000500300700000600280000040000300500000000000",
    ];
    for p in puzzles {
        let g = grid(p);
        assert!(FastBruteForceSolver::has_solution(&g), "{}", p);
        assert!(FastBruteForceSolver::has_unique_solution(&g), "{}", p);
        assert_eq!(FastBruteForceSolver::count_solutions(&g), 1, "{}", p);
        let solver = FastBruteForceSolver::from_sudoku(&g).ok().unwrap();
        let sols = solver.all_solutions_up_to(2);
        assert_eq!(sols.len(), 1);
        assert!(is_solved_grid(&sols[0]));
    }
}

#[test]
fn clash_in_a_row_has_no_solution() {
    let mut g = Sudoku::empty();
    g.0[0] = 5;
    g.0[8] = 5;
    assert!(FastBruteForceSolver::from_sudoku(&g).is_err());
    assert!(!FastBruteForceSolver::has_solution(&g));
    assert!(!FastBruteForceSolver::has_unique_solution(&g));
    assert_eq!(FastBruteForceSolver::count_solutions(&g), 0);
}

#[test]
fn clash_in_a_column_has_no_solution() {
    let mut g = Sudoku::empty();
    g.0[4] = 7;
    g.0[9 * 8 + 4] = 7;
    assert!(!FastBruteForceSolver::has_solution(&g));
    assert_eq!(FastBruteForceSolver::count_solutions(&g), 0);
}

#[test]
fn digit_out_of_range_has_no_solution() {
    let mut g = Sudoku::empty();
    g.0[40] = 12;
    assert!(!FastBruteForceSolver::has_solution(&g));
    assert_eq!(FastBruteForceSolver::count_solutions(&g), 0);
}

#[test]
fn valid_clues_without_a_solution() {
    // row 0 holds 1 to 8, and 9 stands below the last cell of the row
    let mut g = Sudoku::empty();
    for c in 0..8 {
        g.0[c] = (c + 1) as u8;
    }
    g.0[9 * 4 + 8] = 9;
    assert!(FastBruteForceSolver::from_sudoku(&g).is_ok());
    assert!(!FastBruteForceSolver::has_solution(&g));
    assert!(!FastBruteForceSolver::has_unique_solution(&g));
    assert_eq!(FastBruteForceSolver::count_solutions(&g), 0);
}

#[test]
fn empty_grid_has_many_solutions() {
    let g = Sudoku::empty();
    assert!(FastBruteForceSolver::has_solution(&g));
    assert!(!FastBruteForceSolver::has_unique_solution(&g));
    let solver = FastBruteForceSolver::from_sudoku(&g).ok().unwrap();
    assert_eq!(solver.count_solutions_up_to(100), 100);
    let solver = FastBruteForceSolver::from_sudoku(&g).ok().unwrap();
    let sols = solver.all_solutions_up_to(25);
    assert_eq!(sols.len(), 25);
    for (i, s) in sols.iter().enumerate() {
        assert!(is_solved_grid(s));
        for t in &sols[..i] {
            assert!(s != t);
        }
    }
}
