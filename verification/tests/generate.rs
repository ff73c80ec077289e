use sudoku_gen::dfs_with_progress::{DepthFirstSearcherWithProgress, DepthFirstTraversable};
use sudoku_gen::generate::{digits_of_mask, GenerationBase, TemplateGeneratorState};
use sudoku_gen::pipeline::RegionMaskedSudoku;
use sudoku_gen::template::Template;

fn grids_of(text: &str) -> Vec<[u8; 81]> {
    let template = Template::from_str(text).unwrap();
    let mut search = GenerationBase::Template(template).iter();
    let mut out = Vec::new();
    while let Some(grid) = search.next() {
        out.push(grid.sudoku().0);
    }
    out
}

#[test]
fn empty_template_yields_the_empty_grid_once() {
    let text = "\n.........\n.........\n.........\n.........\n.........\n.........\n.........\n.........\n.........\n";
    let grids = grids_of(text);
    assert_eq!(grids.len(), 1);
    assert!(grids[0].iter().all(|&d| d == 0));
}

#[test]
fn template_with_a_given_row_yields_that_row_once() {
    let text = format!("123456789{}", ".".repeat(72));
    let grids = grids_of(&text);
    assert_eq!(grids.len(), 1);
    assert_eq!(&grids[0][..9], &[1, 2, 3, 4, 5, 6, 7, 8, 9]);
    assert!(grids[0][9..].iter().all(|&d| d == 0));
}

#[test]
fn wildcard_yields_each_of_its_digits_in_ascending_order() {
    let text = format!("[932]{}", ".".repeat(80));
    let grids = grids_of(&text);
    let firsts: Vec<u8> = grids.iter().map(|g| g[0]).collect();
    assert_eq!(firsts, vec![2, 3, 9]);
    for g in &grids {
        assert!(g[1..].iter().all(|&d| d == 0));
    }
}

#[test]
fn wildcards_respect_the_givens_and_each_other() {
    // cell 0 is 1; cell 1 may be 1 or 2; cell 9 may be 1, 2 or 3
    let text = format!("1[12]......./[123]{}", ".".repeat(70));
    let grids = grids_of(&text);
    let found: Vec<(u8, u8)> = grids.iter().map(|g| (g[1], g[10])).collect();
    // the slash is an empty cell, so the second wildcard is cell 10
    assert_eq!(found, vec![(2, 3)]);
}

#[test]
fn cell_with_fewest_digits_is_filled_first() {
    // cell 0 has three digits, cell 20 has two: cell 20 is decided first
    let text = format!("[123]{}[12]{}", ".".repeat(19), ".".repeat(60));
    let grids = grids_of(&text);
    let found: Vec<(u8, u8)> = grids.iter().map(|g| (g[20], g[0])).collect();
    assert_eq!(found, vec![(1, 2), (1, 3), (2, 1), (2, 3)]);
}

#[test]
fn givens_that_clash_yield_nothing() {
    let text = format!("11{}", ".".repeat(79));
    assert!(grids_of(&text).is_empty());
    let text = format!("5{}5{}", ".".repeat(8), ".".repeat(71));
    assert!(grids_of(&text).is_empty());
}

#[test]
fn wildcard_without_a_digit_left_yields_nothing() {
    let text = format!("1[1]{}", ".".repeat(79));
    assert!(grids_of(&text).is_empty());
    let text = format!("[]{}", ".".repeat(80));
    assert!(grids_of(&text).is_empty());
}

#[test]
fn search_ends_and_stays_at_its_end() {
    let template = Template::from_str(&format!("[12]{}", ".".repeat(80))).unwrap();
    let mut search: DepthFirstSearcherWithProgress<TemplateGeneratorState> =
        DepthFirstSearcherWithProgress::new(TemplateGeneratorState::for_template(&template));
    assert!(search.next().is_some());
    assert!(search.next().is_some());
    assert!(search.next().is_none());
    assert!(search.next().is_none());
    assert_eq!(search.progress(false), vec![(1, 1)]);
}

#[test]
fn progress_counts_the_steps_that_are_done_at_each_level() {
    let template = Template::from_str(&format!("[123][45]{}", ".".repeat(79))).unwrap();
    let mut search = GenerationBase::Template(template).iter();
    assert_eq!(search.progress(false), vec![(0, 1)]);
    // cell 1 has two digits and is decided first
    let first = search.next().unwrap();
    assert_eq!((first.sudoku().0[0], first.sudoku().0[1]), (1, 4));
    assert_eq!(search.progress(false), vec![(0, 1), (0, 2), (1, 3)]);
    assert_eq!(search.progress(true), vec![(0, 1), (0, 2), (0, 3)]);
    search.next();
    search.next();
    assert_eq!(search.progress(false), vec![(0, 1), (0, 2), (3, 3)]);
    let fourth = search.next().unwrap();
    assert_eq!((fourth.sudoku().0[0], fourth.sudoku().0[1]), (1, 5));
    assert_eq!(search.progress(false), vec![(0, 1), (1, 2), (1, 3)]);
}

#[test]
fn digits_of_a_mask_come_lowest_first() {
    assert_eq!(digits_of_mask(0b10_0100_0010), vec![1, 6, 9]);
    assert_eq!(digits_of_mask(0), Vec::<u8>::new());
}

#[test]
fn region_masked_grid_tracks_what_each_region_lacks() {
    let mut g = RegionMaskedSudoku::empty();
    assert_eq!(g.empty_cells(), 81);
    assert_eq!(g.candidates(40).into_inner(), 0b11_1111_1110);
    g.place(40, 5);
    assert!(!g.is_empty(40));
    assert!(g.is_empty(41));
    assert_eq!(g.sudoku().0[40], 5);
    assert_eq!(g.rows()[4].into_inner(), 0b11_1101_1110);
    assert_eq!(g.cols()[4].into_inner(), 0b11_1101_1110);
    assert_eq!(g.boxes()[4].into_inner(), 0b11_1101_1110);
    assert_eq!(g.rows()[3].into_inner(), 0b11_1111_1110);
    assert_eq!(g.candidates(40).into_inner(), 1 << 5);
    assert_eq!(g.candidates(41).into_inner(), 0b11_1101_1110);
    assert_eq!(g.candidates(0).into_inner(), 0b11_1111_1110);
    assert_eq!(g.empty_cells(), 80);
    g.place(0, 5);
    assert_eq!(g.candidates(4).into_inner(), 0b11_1101_1110);
    assert_eq!(g.empty_cells(), 79);
    g.unplace(0, 5);
    g.unplace(40, 5);
    assert!(g.is_empty(40));
    assert_eq!(g.empty_cells(), 81);
    assert_eq!(g.rows()[4].into_inner(), 0b11_1111_1110);
    assert_eq!(g.candidates(40).into_inner(), 0b11_1111_1110);
}

#[test]
fn wildcard_at_the_first_cell_gives_a_step_for_each_of_its_digits() {
    let text = format!("[257]{}", ".".repeat(80));
    let template = Template::from_str(&text).unwrap();
    let mut state = TemplateGeneratorState::for_template(&template);
    assert!(!state.should_prune());
    assert_eq!(state.next_steps(), vec![(0, 2), (0, 5), (0, 7)]);
}

#[test]
fn givens_that_are_peers_with_one_digit_block_the_search() {
    // the same digit twice in a row, in a column, in a box
    for other in [8usize, 72, 10] {
        let mut cells = vec!['.'; 81];
        cells[0] = '4';
        cells[other] = '4';
        let text: String = cells.iter().collect();
        let mut state = TemplateGeneratorState::for_template(&Template::from_str(&text).unwrap());
        assert!(state.should_prune());
        assert_eq!(state.output().map(|g| g.sudoku().0), None);
    }
    // the same digit twice where the cells are no peers
    let mut cells = vec!['.'; 81];
    cells[0] = '4';
    cells[40] = '4';
    let text: String = cells.iter().collect();
    let mut state = TemplateGeneratorState::for_template(&Template::from_str(&text).unwrap());
    assert!(!state.should_prune());
    let grid = state.output().unwrap();
    assert_eq!(grid.sudoku().0[0], 4);
    assert_eq!(grid.sudoku().0[40], 4);
}
