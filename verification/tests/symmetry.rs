use sudoku_gen::symmetry::{image, DihedralSubgroup};

fn sorted(mut v: Vec<usize>) -> Vec<usize> {
    v.sort();
    v
}

#[test]
fn images_of_a_corner_under_each_symmetry() {
    // cell 1 is row 0, column 1
    assert_eq!(image(0, 1), 1);
    assert_eq!(image(1, 1), 9 * 1 + 8);
    assert_eq!(image(2, 1), 9 * 8 + 7);
    assert_eq!(image(3, 1), 9 * 7 + 0);
    assert_eq!(image(4, 1), 9 * 8 + 1);
    assert_eq!(image(5, 1), 7);
    assert_eq!(image(6, 1), 9);
    assert_eq!(image(7, 1), 9 * 7 + 8);
}

#[test]
fn identity_orbits_are_single_cells() {
    for c in 0..81 {
        assert_eq!(DihedralSubgroup::Identity.orbit(c), vec![c]);
    }
}

#[test]
fn diagonal_reflection_pairs_a_cell_with_its_transpose() {
    let g = DihedralSubgroup::DiagonalReflection;
    assert_eq!(g.orbit(0), vec![0]);
    assert_eq!(g.orbit(40), vec![40]);
    assert_eq!(g.orbit(1), vec![1, 9]);
    assert_eq!(g.orbit(9), vec![9, 1]);
    assert_eq!(g.orbit(17), vec![17, 73]);
    let singles = (0..81).filter(|&c| g.orbit(c).len() == 1).count();
    assert_eq!(singles, 9);
}

#[test]
fn quarter_turn_orbits_have_four_cells_but_for_the_centre() {
    let g = DihedralSubgroup::QuarterTurn;
    assert_eq!(g.orbit(40), vec![40]);
    assert_eq!(sorted(g.orbit(0)), vec![0, 8, 72, 80]);
    assert_eq!(sorted(g.orbit(1)), vec![1, 17, 63, 79]);
    for c in 0..81 {
        let n = g.orbit(c).len();
        assert_eq!(n, if c == 40 { 1 } else { 4 });
    }
}

#[test]
fn full_group_orbits() {
    let g = DihedralSubgroup::Full;
    assert_eq!(sorted(g.orbit(0)), vec![0, 8, 72, 80]);
    assert_eq!(sorted(g.orbit(4)), vec![4, 36, 44, 76]);
    assert_eq!(sorted(g.orbit(1)), vec![1, 7, 9, 17, 63, 71, 73, 79]);
    assert_eq!(g.orbit(40), vec![40]);
}

#[test]
fn orbits_of_the_other_groups() {
    assert_eq!(sorted(DihedralSubgroup::HalfTurn.orbit(0)), vec![0, 80]);
    assert_eq!(sorted(DihedralSubgroup::HorizontalReflection.orbit(0)), vec![0, 72]);
    assert_eq!(sorted(DihedralSubgroup::VerticalReflection.orbit(0)), vec![0, 8]);
    assert_eq!(sorted(DihedralSubgroup::AntidiagonalReflection.orbit(0)), vec![0, 80]);
    assert_eq!(sorted(DihedralSubgroup::AntidiagonalReflection.orbit(8)), vec![8]);
    assert_eq!(sorted(DihedralSubgroup::Orthogonal.orbit(1)), vec![1, 7, 73, 79]);
    assert_eq!(sorted(DihedralSubgroup::Diagonals.orbit(1)), vec![1, 9, 71, 79]);
}

#[test]
fn orbits_part_the_board() {
    for g in [
        DihedralSubgroup::Identity,
        DihedralSubgroup::HalfTurn,
        DihedralSubgroup::QuarterTurn,
        DihedralSubgroup::HorizontalReflection,
        DihedralSubgroup::VerticalReflection,
        DihedralSubgroup::DiagonalReflection,
        DihedralSubgroup::AntidiagonalReflection,
        DihedralSubgroup::Orthogonal,
        DihedralSubgroup::Diagonals,
        DihedralSubgroup::Full,
    ] {
        let orbits = g.orbits();
        assert_eq!(orbits.len(), 81);
        for c in 0..81 {
            assert_eq!(orbits[c][0], c);
            for &d in &orbits[c] {
                assert_eq!(sorted(orbits[d].clone()), sorted(orbits[c].clone()));
            }
        }
        assert!(g.contains(0));
        assert!(!g.contains(8));
    }
}
