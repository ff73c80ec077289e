use sudoku_gen::cell_list::read_cells;
use sudoku_gen::template::{Template, TemplateDigit};

fn kinds(t: &Template) -> String {
    t.digits()
        .iter()
        .map(|d| match d {
            TemplateDigit::Empty => '.',
            TemplateDigit::Given(_) => 'g',
            TemplateDigit::Wildcard(_) => 'w',
        })
        .collect()
}

#[test]
fn template_of_dots_is_all_empty() {
    let t = Template::from_str(&".".repeat(81)).unwrap();
    assert_eq!(t.digits().len(), 81);
    assert!(t.digits().iter().all(|d| matches!(d, TemplateDigit::Empty)));
}

#[test]
fn template_of_nine_lines_is_all_empty() {
    let text = ["........."; 9].join("\n");
    let t = Template::from_str(&text).unwrap();
    assert_eq!(t.digits().len(), 81);
    assert!(t.digits().iter().all(|d| matches!(d, TemplateDigit::Empty)));
    // white space may stand anywhere, also after the last cell
    let text = format!("  {} \r\n\t", [". . . . . . . . ."; 9].join("\n"));
    assert_eq!(Template::from_str(&text).unwrap().digits().len(), 81);
}

#[test]
fn template_with_more_than_81_cells_is_refused() {
    assert!(Template::from_str(&".".repeat(82)).is_none());
    assert!(Template::from_str(&format!("{} 5", ".".repeat(81))).is_none());
    assert!(Template::from_str(&format!("{}[12]", ".".repeat(81))).is_none());
    // a separator between the rows is a cell of its own
    let text = ["........."; 9].join("/");
    assert!(Template::from_str(&text).is_none());
    assert!(Template::from_str(&".".repeat(81)).is_some());
}

#[test]
fn template_digits_are_givens() {
    let text = format!("123456789{}", ".".repeat(72));
    let t = Template::from_str(&text).unwrap();
    for (i, d) in t.digits().iter().enumerate() {
        if i < 9 {
            assert!(matches!(d, TemplateDigit::Given(v) if *v as usize == i + 1));
        } else {
            assert!(matches!(d, TemplateDigit::Empty));
        }
    }
}

#[test]
fn template_wildcards_take_the_digits_up_to_the_closing_character() {
    let text = format!("[123]4(59)x{{}}<7>{}", ".".repeat(75));
    let t = Template::from_str(&text).unwrap();
    assert_eq!(&kinds(&t)[..6], "wgw.ww");
    match &t.digits()[0] {
        TemplateDigit::Wildcard(ds) => assert_eq!(ds, &vec![1, 2, 3]),
        _ => panic!("cell 0"),
    }
    match &t.digits()[2] {
        TemplateDigit::Wildcard(ds) => assert_eq!(ds, &vec![5, 9]),
        _ => panic!("cell 2"),
    }
    match &t.digits()[4] {
        TemplateDigit::Wildcard(ds) => assert!(ds.is_empty()),
        _ => panic!("cell 4"),
    }
    match &t.digits()[5] {
        TemplateDigit::Wildcard(ds) => assert_eq!(ds, &vec![7]),
        _ => panic!("cell 5"),
    }
}

#[test]
fn template_wildcard_is_closed_by_any_character_that_is_no_digit() {
    // the zero closes the wildcard and is taken with it
    let text = format!("[1202{}", ".".repeat(79));
    let t = Template::from_str(&text).unwrap();
    match &t.digits()[0] {
        TemplateDigit::Wildcard(ds) => assert_eq!(ds, &vec![1, 2]),
        _ => panic!("cell 0"),
    }
    assert!(matches!(t.digits()[1], TemplateDigit::Given(2)));
}

#[test]
fn template_ignores_white_space_between_cells() {
    let mut text = String::new();
    for r in 0..9 {
        text.push_str(" 1 .. ..\t.. ..\r\n");
        let _ = r;
    }
    let t = Template::from_str(&text).unwrap();
    for (i, d) in t.digits().iter().enumerate() {
        if i % 9 == 0 {
            assert!(matches!(d, TemplateDigit::Given(1)));
        } else {
            assert!(matches!(d, TemplateDigit::Empty));
        }
    }
}

#[test]
fn template_with_fewer_than_81_cells_is_refused() {
    assert!(Template::from_str("").is_none());
    assert!(Template::from_str(&".".repeat(80)).is_none());
    assert!(Template::from_str(&format!("{}   ", ".".repeat(80))).is_none());
    assert!(Template::from_str(&format!("{}[123]", ".".repeat(80))).is_some());
}

#[test]
fn template_other_characters_are_empty_cells() {
    let text = format!("0?x-_{}", ".".repeat(76));
    let t = Template::from_str(&text).unwrap();
    assert!(t.digits().iter().all(|d| matches!(d, TemplateDigit::Empty)));
}

#[test]
fn next_digit_reads_one_cell_and_says_where_the_next_starts() {
    let (d, next) = Template::next_digit("  7.", 0).unwrap();
    assert!(matches!(d, TemplateDigit::Given(7)));
    assert_eq!(next, 3);
    let (d, next) = Template::next_digit("<12>3", 0).unwrap();
    assert!(matches!(d, TemplateDigit::Wildcard(ref ds) if ds == &vec![1, 2]));
    assert_eq!(next, 4);
    let (d, next) = Template::next_digit("(9", 0).unwrap();
    assert!(matches!(d, TemplateDigit::Wildcard(ref ds) if ds == &vec![9]));
    assert_eq!(next, 2);
    assert!(Template::next_digit("   ", 0).is_none());
    assert!(Template::next_digit("12", 2).is_none());
}

#[test]
fn cell_lists_are_read_with_rows_and_columns_from_zero() {
    let cells = read_cells("r4c1,r9c6").unwrap();
    assert_eq!(cells.len(), 2);
    assert_eq!((cells[0].row, cells[0].col), (3, 0));
    assert_eq!((cells[1].row, cells[1].col), (8, 5));
    assert!(cells[0].digits.is_empty());
    let cells = read_cells(" 56789r4c1 , 4r6c4 ").unwrap();
    assert_eq!(cells[0].digits, vec![5, 6, 7, 8, 9]);
    assert_eq!((cells[0].row, cells[0].col), (3, 0));
    assert_eq!(cells[1].digits, vec![4]);
    assert_eq!((cells[1].row, cells[1].col), (5, 3));
}

#[test]
fn blank_cell_list_is_empty_and_malformed_lists_are_refused() {
    assert_eq!(read_cells("").unwrap().len(), 0);
    assert_eq!(read_cells("   ").unwrap().len(), 0);
    for bad in ["r4", "r4c", "r0c1", "r1c0", "r4c1,", ",r4c1", "r4c1;r5c5", "x4c1", "r10c1", "r4 c1", "r4c1r5c5"] {
        assert!(read_cells(bad).is_none(), "{}", bad);
    }
}
