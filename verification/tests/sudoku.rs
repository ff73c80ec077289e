use sudoku_gen::sudoku::{
    are_peers, box_cell, box_index, col_cell, col_index, from_str, region_cell, region_index, row_cell, row_index,
    Sudoku,
};

#[test]
fn empty_grid_holds_81_zeros() {
    let g = Sudoku::empty();
    assert_eq!(g.digits().len(), 81);
    assert!(g.digits().iter().all(|&d| d == 0));
}

#[test]
fn cells_are_read_and_written_by_index_and_by_row_and_column() {
    let mut g = Sudoku::empty();
    g.set(40, 7);
    assert_eq!(g.get(40), 7);
    assert_eq!(g.at(4, 4), 7);
    g.set_at(8, 0, 3);
    assert_eq!(g.get(72), 3);
    assert_eq!(g.0[72], 3);
    let mut h = Sudoku::empty();
    assert!(!g.same_as(&h));
    h.set(40, 7);
    h.set(72, 3);
    assert!(g.same_as(&h));
    assert!(g == h);
}

#[test]
fn region_indices_follow_the_formulas() {
    for i in 0..81usize {
        assert_eq!(row_index(i), i / 9);
        assert_eq!(col_index(i), i % 9);
        assert_eq!(box_index(i), (i / 9 / 3) * 3 + (i % 9) / 3);
        assert_eq!(region_index(0, i), row_index(i));
        assert_eq!(region_index(1, i), col_index(i));
        assert_eq!(region_index(2, i), box_index(i));
    }
    assert_eq!(box_index(0), 0);
    assert_eq!(box_index(8), 2);
    assert_eq!(box_index(40), 4);
    assert_eq!(box_index(80), 8);
    assert_eq!(box_index(57), 7);
}

#[test]
fn each_region_lists_its_nine_cells() {
    for r in 0..9usize {
        for k in 0..9usize {
            assert_eq!(row_index(row_cell(r, k)), r);
            assert_eq!(col_index(col_cell(r, k)), r);
            assert_eq!(box_index(box_cell(r, k)), r);
            for kind in 0..3usize {
                assert_eq!(region_index(kind, region_cell(kind, r, k)), r);
            }
        }
    }
    let box4: Vec<usize> = (0..9).map(|k| box_cell(4, k)).collect();
    assert_eq!(box4, vec![30, 31, 32, 39, 40, 41, 48, 49, 50]);
    let col2: Vec<usize> = (0..9).map(|k| col_cell(2, k)).collect();
    assert_eq!(col2, vec![2, 11, 20, 29, 38, 47, 56, 65, 74]);
}

#[test]
fn each_cell_has_twenty_peers() {
    for i in 0..81usize {
        let peers = (0..81usize).filter(|&j| are_peers(i, j)).count();
        assert_eq!(peers, 20);
        assert!(!are_peers(i, i));
    }
    assert!(are_peers(0, 8));
    assert!(are_peers(0, 72));
    assert!(are_peers(0, 20));
    assert!(!are_peers(0, 30));
}

#[test]
fn grids_are_read_from_text() {
    let g = from_str("12.4x0009").unwrap();
    assert_eq!(&g.0[..9], &[1, 2, 0, 4, 0, 0, 0, 0, 9]);
    assert!(g.0[9..].iter().all(|&d| d == 0));
    assert!(from_str(&"1".repeat(82)).is_none());
    assert!(from_str("").unwrap() == Sudoku::empty());
    let full = "534678912672195348198342567859761423426853791713924856961537284287419635345286179";
    let h = from_str(full).unwrap();
    assert_eq!(h.0[0], 5);
    assert_eq!(h.0[80], 9);
}

#[test]
fn grids_are_written_as_81_digit_characters() {
    let mut g = Sudoku::empty();
    g.set(0, 5);
    g.set(80, 9);
    let line = g.to_line();
    assert_eq!(line.len(), 81);
    assert_eq!(line[0], b'5');
    assert_eq!(line[1], b'0');
    assert_eq!(line[80], b'9');
}
