use sudoku_gen::expansion::Expansion;
use sudoku_gen::filter::Filter;
use sudoku_gen::generate::GenerationBase;
use sudoku_gen::pipeline::{Advance, Pipeline, PipelineRun, PipelineStep};
use sudoku_gen::progress::position;
use sudoku_gen::symmetry::DihedralSubgroup;
use sudoku_gen::template::Template;

fn pipeline(template: &str, steps: Vec<PipelineStep>) -> PipelineRun {
    Pipeline { base: GenerationBase::Template(Template::from_str(template).unwrap()), steps }.run()
}

/// The grids that the pipeline emits, each with the position of an observer
/// of length 1000 when it is emitted, and the position at the end.
fn drain(run: &mut PipelineRun) -> (Vec<([u8; 81], u64)>, u64) {
    let mut out = Vec::new();
    loop {
        match run.advance() {
            Advance::Emit(grid) => out.push((grid.0, position(&run.progress(), 1000))),
            Advance::Skip => {}
            Advance::Done => break,
        }
    }
    (out, position(&run.progress(), 1000))
}

#[test]
fn pipeline_without_stages_emits_what_the_template_yields() {
    let text = "\n.........\n.........\n.........\n.........\n.........\n.........\n.........\n.........\n.........\n";
    let (grids, end) = drain(&mut pipeline(text, vec![]));
    assert_eq!(grids.len(), 1);
    assert!(grids[0].0.iter().all(|&d| d == 0));
    assert_eq!(grids[0].1, 1000);
    assert_eq!(end, 1000);
}

#[test]
fn pipeline_with_a_given_row() {
    let text = format!("123456789{}", ".".repeat(72));
    let (grids, _) = drain(&mut pipeline(&text, vec![]));
    assert_eq!(grids.len(), 1);
    assert_eq!(&grids[0].0[..9], &[1, 2, 3, 4, 5, 6, 7, 8, 9]);
    assert!(grids[0].0[9..].iter().all(|&d| d == 0));
}

#[test]
fn filters_keep_the_order_of_the_source() {
    // eight clues in row 0, the ninth cell and a cell further down its column are open
    let text = format!("12345678[123456789]{}[6789]{}", ".".repeat(26), ".".repeat(45));
    let (all, _) = drain(&mut pipeline(&text, vec![]));
    let source: Vec<(u8, u8)> = all.iter().map(|g| (g.0[8], g.0[35])).collect();
    assert_eq!(source, vec![(9, 6), (9, 7), (9, 8)]);
    let (kept, _) = drain(&mut pipeline(&text, vec![PipelineStep::Filter(Filter::HasAnySolution)]));
    let found: Vec<(u8, u8)> = kept.iter().map(|g| (g.0[8], g.0[35])).collect();
    assert_eq!(found, vec![(9, 6), (9, 7), (9, 8)]);
    let (kept, _) = drain(&mut pipeline(
        &text,
        vec![PipelineStep::Filter(Filter::non_equivalent()), PipelineStep::Filter(Filter::HasAnySolution)],
    ));
    // 7 and 8 stand in the stack of the open column, and the grids with
    // either of them below are the same but for two columns and two names
    let found: Vec<(u8, u8)> = kept.iter().map(|g| (g.0[8], g.0[35])).collect();
    assert_eq!(found, vec![(9, 6), (9, 7)]);
}

#[test]
fn filter_drops_the_grids_without_a_solution() {
    // the ninth cell of row 0 must be 9, so 9 further down its column leaves no solution
    let text = format!("12345678.{}[789]{}", ".".repeat(26), ".".repeat(45));
    let (all, _) = drain(&mut pipeline(&text, vec![]));
    assert_eq!(all.iter().map(|g| g.0[35]).collect::<Vec<u8>>(), vec![7, 8, 9]);
    let (kept, end) = drain(&mut pipeline(&text, vec![PipelineStep::Filter(Filter::HasAnySolution)]));
    assert_eq!(kept.iter().map(|g| g.0[35]).collect::<Vec<u8>>(), vec![7, 8]);
    assert_eq!(end, 1000);
}

#[test]
fn progress_does_not_fall_and_ends_at_the_full_length() {
    let text = format!("[1234][567]{}", ".".repeat(79));
    let (grids, end) = drain(&mut pipeline(&text, vec![]));
    assert_eq!(grids.len(), 12);
    let positions: Vec<u64> = grids.iter().map(|g| g.1).collect();
    assert_eq!(positions, vec![83, 166, 250, 333, 416, 500, 583, 666, 750, 833, 916, 1000]);
    assert_eq!(end, 1000);
}

#[test]
fn expansion_takes_its_share_of_the_progress_of_its_grid() {
    let text = format!("[12]{}", ".".repeat(80));
    let steps = vec![PipelineStep::Expansion(
        Expansion::plus_n(1, DihedralSubgroup::Identity, "r1c2,r1c3,r1c4,r1c5,r1c6,r1c7,r1c8,r1c9").unwrap(),
    )];
    let mut run = pipeline(&text, steps);
    let (grids, end) = drain(&mut run);
    // each of the two grids gets a clue at one of the 72 cells of rows 1 to 8
    assert_eq!(grids.len(), 2 * (12 * 8 + 60 * 9));
    let positions: Vec<u64> = grids.iter().map(|g| g.1).collect();
    for w in positions.windows(2) {
        assert!(w[0] <= w[1]);
    }
    let half = grids.len() / 2;
    assert_eq!(positions[half - 1], 500);
    assert!(positions[half] >= 500);
    assert!(positions[half + 50] > 500);
    assert!(positions[0] < 10);
    assert_eq!(*positions.last().unwrap(), 1000);
    assert_eq!(end, 1000);
    for (i, g) in grids.iter().enumerate() {
        assert_eq!(g.0[0], if i < half { 1 } else { 2 });
        assert_eq!(g.0.iter().filter(|&&d| d != 0).count(), 2);
    }
}

#[test]
fn expansion_followed_by_a_filter() {
    let text = format!("12345678{}", ".".repeat(73));
    let steps = vec![
        PipelineStep::Expansion(Expansion::plus_n(1, DihedralSubgroup::Identity, "").unwrap()),
        PipelineStep::Filter(Filter::HasAnySolution),
    ];
    let (grids, _) = drain(&mut pipeline(&text, steps));
    // 9 cannot go to column 8 below row 0, nor to the rest of box 2
    for g in &grids {
        for i in [17usize, 26, 35, 44, 53, 62, 71, 80, 15, 16, 24, 25] {
            assert!(g.0[i] != 9);
        }
    }
    assert!(grids.iter().any(|g| g.0[8] == 9));
    assert!(grids.iter().all(|g| g.0.iter().filter(|&&d| d != 0).count() == 9));
}

#[test]
fn position_is_the_progress_times_the_length_rounded_down() {
    assert_eq!(position(&vec![(0, 1)], 1000), 0);
    assert_eq!(position(&vec![(1, 1)], 1000), 1000);
    assert_eq!(position(&vec![(0, 1), (1, 3)], 1000), 333);
    assert_eq!(position(&vec![(0, 1), (2, 3)], 1000), 666);
    assert_eq!(position(&vec![(0, 1), (1, 2), (1, 3)], 1000), 666);
    // a half, a third and a forty-second are six sevenths
    assert_eq!(position(&vec![(0, 1), (1, 2), (2, 3), (1, 7)], 7), 6);
    assert_eq!(position(&vec![(0, 1), (3, 3)], 10), 10);
    assert_eq!(position(&vec![], 10), 0);
    assert_eq!(position(&vec![(0, 1), (1, 3)], u64::MAX), u64::MAX / 3);
}

#[test]
fn progress_never_falls_at_any_step_of_two_expansions_and_a_filter() {
    // only the cells of the first row are open to the expansions
    let mut excluded = Vec::new();
    for r in 2..=9 {
        for c in 1..=9 {
            excluded.push(format!("r{}c{}", r, c));
        }
    }
    let excluded = excluded.join(",");
    let text = format!("[12]{}", ".".repeat(80));
    let steps = vec![
        PipelineStep::Expansion(Expansion::plus_n(1, DihedralSubgroup::Identity, &excluded).unwrap()),
        PipelineStep::Expansion(Expansion::plus_n(1, DihedralSubgroup::Identity, &excluded).unwrap()),
        PipelineStep::Filter(Filter::HasAnySolution),
    ];
    let mut run = pipeline(&text, steps);
    assert_eq!(run.progress(), vec![(0, 1)]);
    let mut last = position(&run.progress(), 1_000_000);
    assert_eq!(last, 0);
    let mut emitted = 0;
    loop {
        let step = run.advance();
        let at = position(&run.progress(), 1_000_000);
        assert!(at >= last);
        last = at;
        match step {
            Advance::Emit(grid) => {
                emitted += 1;
                assert_eq!(grid.0.iter().filter(|&&d| d != 0).count(), 3);
                assert!(grid.0[9..].iter().all(|&d| d == 0));
            }
            Advance::Skip => {}
            Advance::Done => break,
        }
    }
    // two digits for the first cell, then two more clues, one after the other,
    // in the seven cells and seven or eight digits that are left:
    // 8 cells x 8 digits, then 7 cells x 7 digits
    assert_eq!(emitted, 2 * 8 * 8 * 7 * 7);
    assert_eq!(run.progress(), vec![(1, 1)]);
    assert_eq!(last, 1_000_000);
}
