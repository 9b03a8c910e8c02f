use lyneate::{BoardCell, BoardRow};

fn text_of(row: &BoardRow) -> String {
    row.cells.iter().map(|c| c.ch).collect()
}

#[test]
fn writing_past_the_end_grows_the_row_with_blanks() {
    let mut row = BoardRow::spacer();
    row.write_colored_char('x', 3, Some((1, 2, 3)));
    assert_eq!(text_of(&row), "   x");
    assert_eq!(row.cells[0], BoardCell { color: None, ch: ' ' });
    assert_eq!(row.cells[3], BoardCell { color: Some((1, 2, 3)), ch: 'x' });
    assert_eq!(row.line, None);
    assert_eq!(row.end_str, None);
}

#[test]
fn write_char_keeps_the_colour() {
    let mut row = BoardRow::spacer();
    row.write_colored_char('x', 1, Some((1, 2, 3)));
    row.write_char('y', 1);
    assert_eq!(row.cells[1], BoardCell { color: Some((1, 2, 3)), ch: 'y' });
    row.write_char('z', 2);
    assert_eq!(row.cells[2], BoardCell { color: None, ch: 'z' });
}

#[test]
fn recolor_keeps_the_characters() {
    let cells = "abcd".chars().map(|ch| BoardCell { color: None, ch }).collect();
    let mut row = BoardRow::content(4, cells);
    row.recolor(1, 3, Some((9, 9, 9)));
    assert_eq!(text_of(&row), "abcd");
    let colours: Vec<bool> = row.cells.iter().map(|c| c.color.is_some()).collect();
    assert_eq!(colours, vec![false, true, true, false]);
    assert_eq!(row.line, Some(4));
}

#[test]
fn recolor_past_the_end_grows_the_row() {
    let cells = "ab".chars().map(|ch| BoardCell { color: None, ch }).collect();
    let mut row = BoardRow::content(0, cells);
    row.recolor(1, 4, Some((9, 9, 9)));
    assert_eq!(text_of(&row), "ab  ");
    assert_eq!(row.cells[3], BoardCell { color: Some((9, 9, 9)), ch: ' ' });
}

#[test]
fn recolor_of_a_backward_stretch_does_nothing() {
    let cells: Vec<BoardCell> = "ab".chars().map(|ch| BoardCell { color: None, ch }).collect();
    let mut row = BoardRow::content(0, cells.clone());
    row.recolor(5, 2, Some((9, 9, 9)));
    assert_eq!(row.cells, cells);
}

#[test]
fn write_colored_writes_one_character_per_cell() {
    let mut row = BoardRow::spacer();
    row.write_colored(&"\\--".chars().collect(), 2, Some((0, 0, 1)));
    assert_eq!(text_of(&row), "  \\--");
    assert_eq!(row.cells[1].color, None);
    assert_eq!(row.cells[2].color, Some((0, 0, 1)));
    assert_eq!(row.cells[4].color, Some((0, 0, 1)));
}

#[test]
fn finish_cuts_the_row_and_sets_the_message() {
    let mut row = BoardRow::spacer();
    row.write_colored(&"abcdef".chars().collect(), 0, None);
    row.finish(4, "message".to_string());
    assert_eq!(text_of(&row), "abcd");
    assert_eq!(row.end_str.as_deref(), Some("message"));
    // cutting past the end keeps the row as it is
    let mut row = BoardRow::spacer();
    row.write_colored(&"ab".chars().collect(), 0, None);
    row.finish(9, "m".to_string());
    assert_eq!(text_of(&row), "ab");
}

#[test]
fn finished_row_drops_writes_past_its_end() {
    let mut row = BoardRow::spacer();
    row.write_colored(&"abcd".chars().collect(), 0, None);
    row.finish(4, "message".to_string());
    row.write_colored_char('x', 4, None);
    row.write_char('y', 9);
    row.recolor(2, 8, Some((1, 1, 1)));
    assert_eq!(text_of(&row), "abcd");
    assert_eq!(row.cells[1].color, None);
    assert_eq!(row.cells[2].color, Some((1, 1, 1)));
    assert_eq!(row.cells[3].color, Some((1, 1, 1)));
    // writes within the row still land
    row.write_colored_char('z', 0, None);
    assert_eq!(text_of(&row), "zbcd");
    assert_eq!(row.end_str.as_deref(), Some("message"));
}

#[test]
fn get_cell_tells_whether_the_row_holds_the_cell() {
    let mut row = BoardRow::spacer();
    assert!(row.get_cell(2));
    assert_eq!(row.cells.len(), 3);
    row.finish(3, String::new());
    assert!(row.get_cell(2));
    assert!(!row.get_cell(3));
    assert_eq!(row.cells.len(), 3);
}
