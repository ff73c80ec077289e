use sudoku_gen::fast_solver::FastBruteForceSolver;
use sudoku_gen::logic::{BasicSolver, Sukaku};
use sudoku_gen::sudoku::Sudoku;

const ALL: u16 = 0b11_1111_1110;
const SOLVED: &str = "534678912672195348198342567859761423426853791713924856961537284287419635345286179";
const EASY: &str = "530070000600195000098000060800060003400803001700020006060000280000419005000080079";

fn grid(text: &str) -> Sudoku {
    let mut cells = [0u8; 81];
    for (i, c) in text.chars().enumerate() {
        cells[i] = c.to_digit(10).map(|v| v as u8).unwrap_or(0);
    }
    Sudoku(cells)
}

fn candidates(solver: &BasicSolver) -> Vec<u16> {
    (0..81).map(|i| solver.candidates(i)).collect()
}

#[test]
fn single_empty_cell_is_filled_once_the_clues_are_placed() {
    let mut g = grid(SOLVED);
    // the cell at row 4, column 4 holds 5
    assert_eq!(g.0[40], 5);
    g.0[40] = 0;
    let mut solver = BasicSolver::for_sudoku(&g);
    assert!(!solver.is_solved());
    assert_eq!(solver.solved_cells(), 0);
    // the first round places the 80 clues, the second the digit that is left
    assert_eq!(solver.step_basics(), Some(true));
    assert_eq!(solver.solved_cells(), 80);
    assert_eq!(solver.candidates(40), 1 << 5);
    assert!(!solver.is_cell_placed(40));
    assert_eq!(solver.step_basics(), Some(true));
    assert!(solver.is_solved());
    assert_eq!(solver.solved_cells(), 81);
    assert_eq!(solver.empty_cells(), 0);
    assert_eq!(solver.candidates(40), 1 << 5);
    assert!(solver.is_cell_placed(40));
}

#[test]
fn solve_basics_on_a_single_empty_cell() {
    let mut g = grid(SOLVED);
    g.0[40] = 0;
    let mut solver = BasicSolver::for_sudoku(&g);
    solver.solve_basics();
    assert!(solver.is_solved());
    for i in 0..81 {
        assert_eq!(solver.candidates(i), 1 << grid(SOLVED).0[i]);
    }
}

#[test]
fn easy_puzzle_is_solved_by_the_basic_rules() {
    let g = grid(EASY);
    let mut solver = BasicSolver::for_sudoku(&g);
    solver.solve_basics();
    assert!(solver.is_solved());
    let expected = grid(SOLVED);
    for i in 0..81 {
        assert_eq!(solver.candidates(i), 1 << expected.0[i], "cell {}", i);
    }
    assert!(FastBruteForceSolver::has_unique_solution(&g));
}

#[test]
fn solved_state_satisfies_every_constraint() {
    let mut solver = BasicSolver::for_sudoku(&grid(EASY));
    solver.solve_basics();
    assert!(solver.is_solved());
    let digits: Vec<u32> = (0..81).map(|i| solver.candidates(i).trailing_zeros()).collect();
    for i in 0..81 {
        assert!(1 <= digits[i] && digits[i] <= 9);
        assert_eq!(solver.candidates(i).count_ones(), 1);
        for j in 0..81 {
            let peers = i != j
                && (i / 9 == j / 9 || i % 9 == j % 9 || (i / 27 == j / 27 && (i % 9) / 3 == (j % 9) / 3));
            if peers {
                assert!(digits[i] != digits[j]);
            }
        }
    }
}

#[test]
fn solve_basics_twice_is_the_same_as_once() {
    for text in [EASY, "000000010400000000020000000000050407008000300001090000300400200050100000000806000"] {
        let mut once = BasicSolver::for_sudoku(&grid(text));
        once.solve_basics();
        let mut twice = BasicSolver::for_sudoku(&grid(text));
        twice.solve_basics();
        twice.solve_basics();
        assert_eq!(candidates(&once), candidates(&twice));
        assert_eq!(once.solved_cells(), twice.solved_cells());
        assert_eq!(once.is_solved(), twice.is_solved());
        assert_eq!(twice.step_basics(), Some(false));
    }
}

#[test]
fn stuck_state_reports_no_progress_and_stays_as_it_is() {
    let mut solver = BasicSolver::for_sudoku(&Sudoku::empty());
    let before = candidates(&solver);
    assert_eq!(solver.step_basics(), Some(false));
    assert_eq!(candidates(&solver), before);
    assert_eq!(solver.solved_cells(), 0);
    assert!(!solver.is_solved());
}

#[test]
fn naked_single_takes_its_digit_from_the_peers() {
    let mut g = Sudoku::empty();
    g.0[0] = 7;
    let mut solver = BasicSolver::for_sudoku(&g);
    assert_eq!(solver.candidates(0), 1 << 7);
    assert_eq!(solver.candidates(1), ALL);
    assert_eq!(solver.step_basics(), Some(true));
    assert!(solver.is_cell_placed(0));
    assert_eq!(solver.solved_cells(), 1);
    for j in [1usize, 8, 9, 72, 10, 20] {
        assert_eq!(solver.candidates(j), ALL & !(1 << 7), "cell {}", j);
    }
    for j in [12usize, 30, 80] {
        assert_eq!(solver.candidates(j), ALL, "cell {}", j);
    }
}

#[test]
fn hidden_single_is_placed_where_only_one_cell_can_take_the_digit() {
    // digit 1 can go to cell 4 only in row 0
    let mut masks = [ALL; 81];
    for c in 0..9 {
        if c != 4 {
            masks[c] = ALL & !(1 << 1);
        }
    }
    let mut solver = BasicSolver::for_sukaku(Sukaku(masks));
    assert_eq!(solver.step_basics(), Some(true));
    assert!(solver.is_cell_placed(4));
    assert_eq!(solver.candidates(4), 1 << 1);
    assert_eq!(solver.solved_cells(), 1);
    // the digit has left the column and the box of the cell
    assert_eq!(solver.candidates(13), ALL & !(1 << 1));
    assert_eq!(solver.candidates(76), ALL & !(1 << 1));
    assert_eq!(solver.candidates(30), ALL);
}

#[test]
fn pointing_takes_the_digit_from_the_rest_of_the_box() {
    // in row 0 digit 1 can go to cells 0 and 1 only, both in box 0
    let mut masks = [ALL; 81];
    for c in 2..9 {
        masks[c] = ALL & !(1 << 1);
    }
    let mut solver = BasicSolver::for_sukaku(Sukaku(masks));
    assert_eq!(solver.step_basics(), Some(true));
    assert_eq!(solver.solved_cells(), 0);
    for j in [9usize, 10, 11, 18, 19, 20] {
        assert_eq!(solver.candidates(j), ALL & !(1 << 1), "cell {}", j);
    }
    for j in [0usize, 1, 12, 27, 80] {
        assert_eq!(solver.candidates(j), ALL, "cell {}", j);
    }
    for j in 2..9usize {
        assert_eq!(solver.candidates(j), ALL & !(1 << 1));
    }
}

#[test]
fn claiming_takes_the_digit_from_the_rest_of_the_row() {
    // in box 0 digit 9 can go to the cells of row 1 only
    let mut masks = [ALL; 81];
    for j in [0usize, 1, 2, 18, 19, 20] {
        masks[j] = ALL & !(1 << 9);
    }
    let mut solver = BasicSolver::for_sukaku(Sukaku(masks));
    assert_eq!(solver.step_basics(), Some(true));
    for j in 12..18usize {
        assert_eq!(solver.candidates(j), ALL & !(1 << 9), "cell {}", j);
    }
    for j in [9usize, 10, 11] {
        assert_eq!(solver.candidates(j), ALL);
    }
}

#[test]
fn naked_pair_takes_its_digits_from_the_rest_of_the_row_and_the_box() {
    let mut masks = [ALL; 81];
    masks[0] = 0b110;
    masks[1] = 0b110;
    let mut solver = BasicSolver::for_sukaku(Sukaku(masks));
    assert_eq!(solver.step_basics(), Some(true));
    assert_eq!(solver.candidates(0), 0b110);
    assert_eq!(solver.candidates(1), 0b110);
    for j in [2usize, 5, 8, 9, 10, 11, 18, 19, 20] {
        assert_eq!(solver.candidates(j), ALL & !0b110, "cell {}", j);
    }
    for j in [12usize, 27, 72, 80] {
        assert_eq!(solver.candidates(j), ALL, "cell {}", j);
    }
    assert_eq!(solver.solved_cells(), 0);
}

#[test]
fn cell_without_a_candidate_is_a_contradiction() {
    let mut masks = [ALL; 81];
    masks[33] = 0;
    let mut solver = BasicSolver::for_sukaku(Sukaku(masks));
    assert_eq!(solver.step_basics(), None);
}

#[test]
fn two_equal_clues_in_a_row_are_a_contradiction() {
    let mut g = Sudoku::empty();
    g.0[0] = 4;
    g.0[5] = 4;
    let mut solver = BasicSolver::for_sudoku(&g);
    assert_eq!(solver.step_basics(), None);
    assert!(!solver.is_solved());
}

#[test]
fn digit_without_a_cell_in_a_region_is_a_contradiction() {
    // no cell of row 3 can take digit 6
    let mut masks = [ALL; 81];
    for c in 0..9 {
        masks[27 + c] = ALL & !(1 << 6);
    }
    let mut solver = BasicSolver::for_sukaku(Sukaku(masks));
    assert_eq!(solver.step_basics(), None);
}

#[test]
fn cell_that_is_the_only_one_for_two_digits_is_a_contradiction() {
    // in row 0 both 1 and 2 can go to cell 0 only
    let mut masks = [ALL; 81];
    for c in 1..9 {
        masks[c] = ALL & !0b110;
    }
    let mut solver = BasicSolver::for_sukaku(Sukaku(masks));
    assert_eq!(solver.step_basics(), None);
}

#[test]
fn candidates_of_a_grid_are_its_digits_or_everything() {
    let mut g = Sudoku::empty();
    g.0[3] = 9;
    g.0[4] = 12;
    let s = Sukaku::from_sudoku(&g);
    assert_eq!(s.0[3], 1 << 9);
    assert_eq!(s.0[4], 0);
    assert_eq!(s.0[5], ALL);
}

#[test]
fn eliminations_take_digits_from_their_cells() {
    let mut solver = BasicSolver::for_sudoku(&Sudoku::empty());
    solver.eliminate_candidates(&vec![((3, 0), 5), ((3, 0), 9), ((8, 8), 1)]);
    assert_eq!(solver.candidates(27), ALL & !(1 << 5) & !(1 << 9));
    assert_eq!(solver.candidates(80), ALL & !(1 << 1));
    assert_eq!(solver.candidates(0), ALL);
}
