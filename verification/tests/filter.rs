use sudoku_gen::filter::{
    at_most_n_basic_placements, non_equivalent, solves_with_basics_after_elims, Filter,
};
use sudoku_gen::pipeline::RegionMaskedSudoku;
use sudoku_gen::sudoku::Sudoku;

const SOLVED: &str = "534678912672195348198342567859761423426853791713924856961537284287419635345286179";
const EASY: &str = "530070000600195000098000060800060003400803001700020006060000280000419005000080079";
const HARD: &str = "000000010400000000020000000000050407008000300001090000300400200050100000000806000";

fn masked(text: &str) -> RegionMaskedSudoku {
    let mut g = RegionMaskedSudoku::empty();
    for (i, c) in text.chars().enumerate() {
        if let Some(d) = c.to_digit(10) {
            if d != 0 {
                g.place(i, d as u8);
            }
        }
    }
    g
}

fn without(text: &str, cells: &[usize]) -> String {
    text.chars().enumerate().map(|(i, c)| if cells.contains(&i) { '0' } else { c }).collect()
}

#[test]
fn non_equivalent_filter_keeps_a_grid_once() {
    let mut filter = Filter::non_equivalent();
    let g = masked(SOLVED);
    assert!(filter.matches(&g));
    assert!(!filter.matches(&g));
    assert!(!filter.matches(&g));
}

#[test]
fn non_equivalent_filter_drops_a_grid_that_is_another_one_moved() {
    let mut filter = Filter::non_equivalent();
    assert!(filter.matches(&masked(SOLVED)));
    // the same grid with its first two rows swapped
    let swapped: String = format!("{}{}{}", &SOLVED[9..18], &SOLVED[0..9], &SOLVED[18..]);
    assert!(!filter.matches(&masked(&swapped)));
    // another grid
    assert!(filter.matches(&masked(EASY)));
    match filter {
        Filter::NonEquivalent { seen_minlexes } => assert_eq!(seen_minlexes.len(), 2),
        _ => panic!("filter"),
    }
}

#[test]
fn non_equivalent_notes_the_least_grid() {
    let mut seen: Vec<Sudoku> = Vec::new();
    let g = masked(SOLVED);
    assert!(non_equivalent(g.sudoku(), &mut seen));
    assert_eq!(seen.len(), 1);
    assert_eq!(&seen[0].0[..9], &[1, 2, 3, 4, 5, 6, 7, 8, 9]);
    assert!(!non_equivalent(g.sudoku(), &mut seen));
    assert_eq!(seen.len(), 1);
}

#[test]
fn solution_filters_count_the_solutions() {
    let mut any = Filter::HasAnySolution;
    let mut unique = Filter::HasUniqueSolution;
    assert!(any.matches(&masked(EASY)));
    assert!(unique.matches(&masked(EASY)));
    assert!(any.matches(&masked(HARD)));
    assert!(unique.matches(&masked(HARD)));
    // the four corners of a rectangle of 5 and 4 can be filled in two ways
    let two = without(SOLVED, &[57, 62, 66, 71]);
    assert!(any.matches(&masked(&two)));
    assert!(!unique.matches(&masked(&two)));
    assert!(any.matches(&RegionMaskedSudoku::empty()));
    assert!(!unique.matches(&RegionMaskedSudoku::empty()));
    // row 0 holds 1 to 8, and 9 stands below the last cell of the row
    let mut none = RegionMaskedSudoku::empty();
    for c in 0..8 {
        none.place(c, (c + 1) as u8);
    }
    none.place(44, 9);
    assert!(!any.matches(&none));
    assert!(!unique.matches(&none));
}

#[test]
fn at_most_n_basic_placements_counts_the_digits_beyond_the_clues() {
    let one_missing = without(SOLVED, &[40]);
    assert!(!at_most_n_basic_placements(0, &masked(&one_missing)));
    assert!(at_most_n_basic_placements(1, &masked(&one_missing)));
    assert!(at_most_n_basic_placements(5, &masked(&one_missing)));
    let mut filter = Filter::at_most_n_basic_placements(0);
    assert!(!filter.matches(&masked(&one_missing)));
    // nothing can be placed in a solved grid or in an empty one
    assert!(at_most_n_basic_placements(0, &masked(SOLVED)));
    assert!(at_most_n_basic_placements(0, &RegionMaskedSudoku::empty()));
    // the easy puzzle has 51 empty cells, all placed by the basic rules
    assert!(!at_most_n_basic_placements(50, &masked(EASY)));
    assert!(at_most_n_basic_placements(51, &masked(EASY)));
}

#[test]
fn solves_with_basics_without_eliminations() {
    assert!(solves_with_basics_after_elims(&vec![], &masked(EASY)));
    assert!(!solves_with_basics_after_elims(&vec![], &RegionMaskedSudoku::empty()));
    let mut filter = Filter::solves_with_basics_after_elims("").unwrap();
    assert!(filter.matches(&masked(EASY)));
}

#[test]
fn solves_with_basics_after_an_elimination_that_decides_the_grid() {
    // with the corners of the rectangle open there are two solutions
    let two = without(SOLVED, &[57, 62, 66, 71]);
    assert!(!solves_with_basics_after_elims(&vec![], &masked(&two)));
    // cell 57 is row 6, column 3: without 4 it is 5
    assert!(solves_with_basics_after_elims(&vec![((6, 3), 4)], &masked(&two)));
    assert!(solves_with_basics_after_elims(&vec![((6, 3), 5)], &masked(&two)));
    // without both, the cell has no digit
    assert!(!solves_with_basics_after_elims(&vec![((6, 3), 4), ((6, 3), 5)], &masked(&two)));
    let mut filter = Filter::solves_with_basics_after_elims("4r7c4").unwrap();
    assert!(filter.matches(&masked(&two)));
    let mut filter = Filter::solves_with_basics_after_elims("45r7c4").unwrap();
    assert!(!filter.matches(&masked(&two)));
}

#[test]
fn elimination_text_gives_one_entry_for_each_digit() {
    match Filter::solves_with_basics_after_elims("56789r4c1,4r6c4").unwrap() {
        Filter::SolvesWithBasicsAfterElims { elims } => {
            assert_eq!(
                elims,
                vec![((3, 0), 5), ((3, 0), 6), ((3, 0), 7), ((3, 0), 8), ((3, 0), 9), ((5, 3), 4)]
            );
        }
        _ => panic!("filter"),
    }
    match Filter::solves_with_basics_after_elims("r1c1").unwrap() {
        Filter::SolvesWithBasicsAfterElims { elims } => assert!(elims.is_empty()),
        _ => panic!("filter"),
    }
    assert!(Filter::solves_with_basics_after_elims("5r4").is_none());
    assert!(Filter::solves_with_basics_after_elims("5r0c1").is_none());
    assert!(Filter::solves_with_basics_after_elims("5r4c1 4r6c4").is_none());
}
