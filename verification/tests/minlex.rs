use sudoku_gen::minlex::minlex;
use sudoku_gen::sudoku::Sudoku;

const LEAST: &str = "123456789456789123789123456214365897365897214897214365531642978642978531978531642";
const SOLVED: &str = "534678912672195348198342567859761423426853791713924856961537284287419635345286179";

fn grid(text: &str) -> Sudoku {
    let mut cells = [0u8; 81];
    for (i, c) in text.chars().enumerate() {
        cells[i] = c.to_digit(10).map(|v| v as u8).unwrap_or(0);
    }
    Sudoku(cells)
}

fn swap_rows(g: &Sudoku, a: usize, b: usize) -> Sudoku {
    let mut out = *g;
    for c in 0..9 {
        out.0[9 * a + c] = g.0[9 * b + c];
        out.0[9 * b + c] = g.0[9 * a + c];
    }
    out
}

fn swap_bands(g: &Sudoku, a: usize, b: usize) -> Sudoku {
    let mut out = *g;
    for r in 0..3 {
        out = swap_rows(&out, 3 * a + r, 3 * b + r);
    }
    out
}

fn transpose(g: &Sudoku) -> Sudoku {
    let mut out = *g;
    for r in 0..9 {
        for c in 0..9 {
            out.0[9 * r + c] = g.0[9 * c + r];
        }
    }
    out
}

fn relabel(g: &Sudoku, map: [u8; 10]) -> Sudoku {
    let mut out = *g;
    for i in 0..81 {
        out.0[i] = map[g.0[i] as usize];
    }
    out
}

#[test]
fn least_grid_is_its_own_minlex() {
    let g = grid(LEAST);
    assert!(minlex(&g) == g);
}

#[test]
fn minlex_of_a_solved_grid_starts_with_the_digits_in_order() {
    let m = minlex(&grid(SOLVED));
    assert_eq!(&m.0[..9], &[1, 2, 3, 4, 5, 6, 7, 8, 9]);
    assert_eq!(m.0[9], 4);
}

#[test]
fn minlex_of_a_minlex_is_the_same() {
    let once = minlex(&grid(SOLVED));
    let twice = minlex(&once);
    assert!(once == twice);
}

#[test]
fn minlex_is_the_same_after_rows_are_swapped_within_a_band() {
    let g = grid(SOLVED);
    assert!(minlex(&swap_rows(&g, 3, 5)) == minlex(&g));
}

#[test]
fn minlex_is_the_same_after_bands_are_swapped_and_the_grid_is_transposed() {
    let g = grid(SOLVED);
    let moved = transpose(&swap_bands(&g, 0, 2));
    assert!(minlex(&moved) == minlex(&g));
}

#[test]
fn minlex_is_the_same_after_the_digits_are_renamed() {
    let g = grid(LEAST);
    let renamed = relabel(&g, [0, 9, 8, 7, 6, 5, 4, 3, 2, 1]);
    assert!(renamed != g);
    assert!(minlex(&renamed) == g);
}

#[test]
fn minlex_of_a_moved_least_grid_is_the_least_grid() {
    let g = grid(LEAST);
    let moved = swap_rows(&transpose(&swap_bands(&g, 1, 2)), 0, 1);
    assert!(moved != g);
    assert!(minlex(&moved) == g);
}

#[test]
fn minlex_keeps_empty_cells_empty() {
    let mut g = Sudoku::empty();
    g.0[80] = 7;
    let m = minlex(&g);
    // the clue goes as far back as the symmetries allow, and is named 1
    assert_eq!(m.0.iter().filter(|&&d| d != 0).count(), 1);
    assert_eq!(m.0[80], 1);
    assert!(minlex(&Sudoku::empty()) == Sudoku::empty());
}

#[test]
fn minlex_of_a_grid_with_two_clues() {
    let mut g = Sudoku::empty();
    g.0[0] = 3;
    g.0[1] = 3;
    let m = minlex(&g);
    let clues: Vec<(usize, u8)> = (0..81).filter(|&i| m.0[i] != 0).map(|i| (i, m.0[i])).collect();
    // two clues in one minirow go to the last two cells of the grid
    assert_eq!(clues, vec![(79, 1), (80, 1)]);
    g.0[1] = 0;
    g.0[40] = 5;
    let m = minlex(&g);
    let clues: Vec<(usize, u8)> = (0..81).filter(|&i| m.0[i] != 0).map(|i| (i, m.0[i])).collect();
    // clues in different bands and stacks: the first goes to the end of the
    // middle band, the second to the last row, in the stack before
    assert_eq!(clues, vec![(53, 1), (77, 2)]);
}
