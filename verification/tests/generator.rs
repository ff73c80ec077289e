use sudoku_gen::fast_solver::FastBruteForceSolver;
use sudoku_gen::generator::Generator;
use sudoku_gen::progress::position;
use sudoku_gen::sudoku::Sudoku;
use sudoku_gen::template::Template;

const SOLVED: &str = "123456789456789123789123456231564897564897231897231564312645978645978312978312645";

fn solvable_grids(text: &str) -> Vec<[u8; 81]> {
    let template = Template::from_str(text).unwrap();
    let mut generator = Generator::for_template(&template);
    let mut out = Vec::new();
    while let Some(grid) = generator.next() {
        out.push(grid.0);
    }
    out
}

#[test]
fn generator_yields_the_empty_grid_for_the_empty_template() {
    let grids = solvable_grids(&".".repeat(81));
    assert_eq!(grids.len(), 1);
    assert!(grids[0].iter().all(|&d| d == 0));
}

#[test]
fn generator_yields_only_grids_with_a_solution() {
    // all of a solved grid but its first cell, which may take any digit
    let text = format!("[123456789]{}", &SOLVED[1..]);
    let grids = solvable_grids(&text);
    assert_eq!(grids.len(), 1);
    assert_eq!(grids[0][0], 1);
    assert!(FastBruteForceSolver::has_solution(&Sudoku(grids[0])));
}

#[test]
fn generator_leaves_out_what_the_plain_search_would_yield_without_a_solution() {
    // the first row lacks 9, so the last cell of the second row decides
    let text = format!("12345678.[49]{}", ".".repeat(71));
    let grids = solvable_grids(&text);
    let cells: Vec<u8> = grids.iter().map(|g| g[9]).collect();
    assert_eq!(cells, vec![4, 9]);
    // here no grid has a solution: the first row can hold no 9
    let text = format!("12345678.{}9{}", ".".repeat(8), ".".repeat(63));
    assert_eq!(solvable_grids(&text).len(), 0);
}

#[test]
fn generator_yields_the_digits_of_a_wildcard_in_ascending_order() {
    let text = format!("[731]{}", ".".repeat(80));
    let grids = solvable_grids(&text);
    let firsts: Vec<u8> = grids.iter().map(|g| g[0]).collect();
    assert_eq!(firsts, vec![1, 3, 7]);
}

#[test]
fn generator_progress_does_not_fall_and_ends_full() {
    let text = format!("[123][456]{}", ".".repeat(79));
    let template = Template::from_str(&text).unwrap();
    let mut generator = Generator::for_template(&template);
    assert_eq!(position(&generator.progress(false), 900), 0);
    let mut last = 0;
    let mut count = 0;
    while let Some(_) = generator.next() {
        let at = position(&generator.progress(true), 900);
        assert!(at >= last);
        last = at;
        let done = position(&generator.progress(false), 900);
        assert!(done >= last);
        last = done;
        count += 1;
    }
    assert_eq!(count, 9);
    assert_eq!(generator.progress(false), vec![(1, 1)]);
    assert_eq!(position(&generator.progress(false), 900), 900);
}
