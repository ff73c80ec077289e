use sudoku_gen::expansion::{Expansion, PlusNSearchState};
use sudoku_gen::dfs_with_progress::DepthFirstSearcherWithProgress;
use sudoku_gen::pipeline::RegionMaskedSudoku;
use sudoku_gen::symmetry::DihedralSubgroup;

fn clue_cells(g: &RegionMaskedSudoku) -> Vec<usize> {
    (0..81).filter(|&i| g.sudoku().0[i] != 0).collect()
}

fn is_valid(g: &RegionMaskedSudoku) -> bool {
    let d = g.sudoku().0;
    for i in 0..81 {
        for j in 0..81 {
            let peers = i != j
                && (i / 9 == j / 9 || i % 9 == j % 9 || (i / 27 == j / 27 && (i % 9) / 3 == (j % 9) / 3));
            if peers && d[i] != 0 && d[i] == d[j] {
                return false;
            }
        }
    }
    true
}

#[test]
fn plus_two_under_the_diagonal_reflection_starts_on_the_diagonal() {
    let expansion = Expansion::plus_n(2, DihedralSubgroup::DiagonalReflection, "").unwrap();
    let mut search = expansion.expand(RegionMaskedSudoku::empty());
    let first = search.next().unwrap();
    assert_eq!(clue_cells(&first), vec![0, 10]);
    assert_eq!(first.sudoku().0[0], 1);
    assert_eq!(first.sudoku().0[10], 2);
    assert!(is_valid(&first));
}

#[test]
fn plus_two_under_the_diagonal_reflection_keeps_the_symmetry() {
    let expansion = Expansion::plus_n(2, DihedralSubgroup::DiagonalReflection, "").unwrap();
    let mut search = expansion.expand(RegionMaskedSudoku::empty());
    let mut count = 0;
    let mut pairs = 0;
    while let Some(g) = search.next() {
        let cells = clue_cells(&g);
        assert_eq!(cells.len(), 2);
        for &c in &cells {
            let mirror = 9 * (c % 9) + c / 9;
            assert!(cells.contains(&mirror));
        }
        if cells[0] % 10 != 0 {
            pairs += 1;
        }
        assert!(is_valid(&g));
        count += 1;
    }
    // two cells of the diagonal: 36 pairs of cells, 81 pairs of digits less
    // the 9 equal ones where the cells share a box (9 pairs of cells);
    // a cell and its mirror: 36 pairs of cells, with equal digits shut out
    // where the two share a box (9 of them)
    assert_eq!(count - pairs, 27 * 81 + 9 * 72);
    assert_eq!(pairs, 27 * 81 + 9 * 72);
}

#[test]
fn plus_one_without_symmetry_adds_each_digit_at_each_cell() {
    let expansion = Expansion::plus_n(1, DihedralSubgroup::Identity, "").unwrap();
    let mut search = expansion.expand(RegionMaskedSudoku::empty());
    let mut found = Vec::new();
    while let Some(g) = search.next() {
        let cells = clue_cells(&g);
        assert_eq!(cells.len(), 1);
        found.push((cells[0], g.sudoku().0[cells[0]]));
    }
    let expected: Vec<(usize, u8)> = (0..81).flat_map(|c| (1..=9).map(move |d| (c, d))).collect();
    assert_eq!(found, expected);
}

#[test]
fn plus_zero_yields_the_grid_itself() {
    let mut g = RegionMaskedSudoku::empty();
    g.place(40, 5);
    let expansion = Expansion::plus_n(0, DihedralSubgroup::Identity, "").unwrap();
    let mut search = expansion.expand(g);
    let only = search.next().unwrap();
    assert_eq!(clue_cells(&only), vec![40]);
    assert!(search.next().is_none());
}

#[test]
fn excluded_cells_and_their_orbits_get_no_clue() {
    let expansion = Expansion::plus_n(1, DihedralSubgroup::Identity, "r1c1, r9c9").unwrap();
    let mut search = expansion.expand(RegionMaskedSudoku::empty());
    let mut cells = Vec::new();
    while let Some(g) = search.next() {
        cells.push(clue_cells(&g)[0]);
    }
    cells.dedup();
    assert_eq!(cells, (1..80).collect::<Vec<usize>>());
}

#[test]
fn clues_of_the_grid_respect_the_rules_and_keep_their_place() {
    let mut g = RegionMaskedSudoku::empty();
    g.place(0, 5);
    let expansion = Expansion::plus_n(1, DihedralSubgroup::Identity, "").unwrap();
    let mut search = expansion.expand(g);
    let mut count = 0;
    while let Some(found) = search.next() {
        assert_eq!(found.sudoku().0[0], 5);
        let cells = clue_cells(&found);
        assert_eq!(cells.len(), 2);
        assert!(is_valid(&found));
        count += 1;
    }
    // 20 peers take 8 digits each, the other 60 cells take 9
    assert_eq!(count, 20 * 8 + 60 * 9);
}

#[test]
fn orbit_of_a_clue_is_completed_first() {
    // the clue at cell 1 asks for a clue at its mirror, cell 9
    let mut g = RegionMaskedSudoku::empty();
    g.place(1, 4);
    let expansion = Expansion::plus_n(1, DihedralSubgroup::DiagonalReflection, "").unwrap();
    let mut search = expansion.expand(g);
    let mut digits = Vec::new();
    while let Some(found) = search.next() {
        assert_eq!(clue_cells(&found), vec![1, 9]);
        digits.push(found.sudoku().0[9]);
    }
    assert_eq!(digits, vec![1, 2, 3, 5, 6, 7, 8, 9]);
}

#[test]
fn orbit_that_needs_more_clues_than_are_left_is_cut() {
    let expansion = Expansion::plus_n(1, DihedralSubgroup::QuarterTurn, "").unwrap();
    let mut search = expansion.expand(RegionMaskedSudoku::empty());
    let mut cells = Vec::new();
    while let Some(found) = search.next() {
        cells.push(clue_cells(&found));
    }
    // only the centre is its own orbit
    assert_eq!(cells.len(), 9);
    assert!(cells.iter().all(|c| c == &vec![40]));
}

#[test]
fn malformed_exclusions_are_refused() {
    assert!(Expansion::plus_n(1, DihedralSubgroup::Identity, "r4").is_none());
    assert!(Expansion::plus_n(1, DihedralSubgroup::Identity, "5r4c1").is_none());
    assert!(Expansion::plus_n(1, DihedralSubgroup::Identity, "r4c1,").is_none());
    match Expansion::plus_n(3, DihedralSubgroup::HalfTurn, "r4c1,r9c6").unwrap() {
        Expansion::PlusN { n, symmetry, excluded_cells } => {
            assert_eq!(n, 3);
            assert!(symmetry == DihedralSubgroup::HalfTurn);
            assert_eq!(excluded_cells, vec![(3, 0), (8, 5)]);
        }
    }
}

#[test]
fn search_state_is_made_for_a_grid_and_a_symmetry() {
    let root = PlusNSearchState::for_sudoku_and_symmetry(
        2,
        RegionMaskedSudoku::empty(),
        DihedralSubgroup::HalfTurn,
        &vec![(4, 4)],
    );
    let mut search = DepthFirstSearcherWithProgress::new(root);
    let first = search.next().unwrap();
    assert_eq!(clue_cells(&first), vec![0, 80]);
    let mut count = 1;
    while let Some(found) = search.next() {
        let cells = clue_cells(&found);
        assert_eq!(cells.len(), 2);
        assert_eq!(cells[0] + cells[1], 80);
        count += 1;
    }
    // 40 pairs of cells: 10 of them share a row, a column or a box
    assert_eq!(count, 30 * 81 + 10 * 72);
}
