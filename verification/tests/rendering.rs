use lyneate::render::{apply_effect, decimal, line_number_width, render_board, render_row};
use lyneate::{
    BoardCell, BoardRow, Report, TextEffect, Theme, ThemeChars, ThemeEffects, ThemeSizing,
};

fn plain_theme() -> Theme {
    Theme {
        chars: ThemeChars::ascii(),
        effects: ThemeEffects::none(),
        sizing: ThemeSizing::default(),
    }
}

fn cells(text: &str) -> Vec<BoardCell> {
    text.chars().map(|ch| BoardCell { color: None, ch }).collect()
}

#[test]
fn decimal_writes_the_digits() {
    assert_eq!(decimal(0), vec!['0']);
    assert_eq!(decimal(7), vec!['7']);
    assert_eq!(decimal(10), vec!['1', '0']);
    assert_eq!(decimal(12345), vec!['1', '2', '3', '4', '5']);
    let max: String = decimal(usize::MAX).into_iter().collect();
    assert_eq!(max, usize::MAX.to_string());
}

#[test]
fn line_number_width_is_that_of_the_last_line_shown() {
    let board = vec![
        BoardRow::content(0, cells("a")),
        BoardRow::spacer(),
        BoardRow::content(8, cells("b")),
        BoardRow::spacer(),
    ];
    assert_eq!(line_number_width(&board), 1);
    let board = vec![BoardRow::content(0, cells("a")), BoardRow::content(9, cells("b"))];
    assert_eq!(line_number_width(&board), 2);
    let board = vec![BoardRow::content(99, cells("b")), BoardRow::spacer()];
    assert_eq!(line_number_width(&board), 3);
}

#[test]
fn line_number_width_of_no_line_is_zero() {
    assert_eq!(line_number_width(&vec![]), 0);
    assert_eq!(line_number_width(&vec![BoardRow::spacer()]), 0);
}

#[test]
fn plain_effect_leaves_the_text() {
    assert_eq!(apply_effect(TextEffect::Plain, "12."), "12.");
    assert_eq!(apply_effect(TextEffect::Plain, ""), "");
}

#[test]
fn dimmed_effect_follows_the_colour_switch() {
    colored::control::set_override(false);
    assert_eq!(apply_effect(TextEffect::Dimmed, "12."), "12.");
    colored::control::set_override(true);
    assert_eq!(apply_effect(TextEffect::Dimmed, "12."), "\u{1b}[2m12.\u{1b}[0m");
}

#[test]
fn content_row_has_its_line_number() {
    let row = BoardRow::content(4, cells("let x"));
    assert_eq!(render_row(&row, 1, &plain_theme()), "   5.  let x ");
    assert_eq!(render_row(&row, 3, &plain_theme()), "     5.  let x ");
    // a number wider than the column is not cut
    let row = BoardRow::content(122, cells("let x"));
    assert_eq!(render_row(&row, 1, &plain_theme()), "   123.  let x ");
}

#[test]
fn spacer_row_has_blanks_for_its_line_number() {
    let mut row = BoardRow::spacer();
    row.write_colored(&"  \\--".chars().collect(), 0, None);
    row.finish(5, "message".to_string());
    assert_eq!(render_row(&row, 2, &plain_theme()), "          \\-- message");
    assert_eq!(render_row(&BoardRow::spacer(), 0, &plain_theme()), "       ");
}

#[test]
fn padding_before_the_line_number_follows_the_theme() {
    let mut theme = plain_theme();
    theme.sizing.pre_line_number_padding = 0;
    let row = BoardRow::content(0, cells("x"));
    assert_eq!(render_row(&row, 1, &theme), "1.  x ");
    theme.sizing.pre_line_number_padding = 6;
    assert_eq!(render_row(&row, 1, &theme), "      1.  x ");
}

#[test]
fn coloured_cells_follow_the_colour_switch() {
    let mut row = BoardRow::content(0, cells("ab"));
    row.recolor(1, 2, Some((255, 0, 10)));
    colored::control::set_override(false);
    assert_eq!(render_row(&row, 1, &plain_theme()), "   1.  ab ");
    // which colour code is written depends on the terminal
    colored::control::set_override(true);
    let line = render_row(&row, 1, &plain_theme());
    assert!(line.starts_with("   1.  a\u{1b}["), "{:?}", line);
    assert!(line.ends_with("mb\u{1b}[0m "), "{:?}", line);
}

#[test]
fn default_theme_dims_the_line_numbers() {
    colored::control::set_override(true);
    let row = BoardRow::content(0, cells("ab"));
    assert_eq!(
        render_row(&row, 1, &Theme::default()),
        "   \u{1b}[2m1.\u{1b}[0m  ab "
    );
}

#[test]
fn board_is_rendered_row_by_row() {
    let board = vec![BoardRow::content(9, cells("x")), BoardRow::spacer()];
    assert_eq!(
        render_board(&board, &plain_theme()),
        vec!["   10.  x ".to_string(), "         ".to_string()]
    );
    assert!(render_board(&vec![], &plain_theme()).is_empty());
}

#[test]
fn display_gives_the_lines_to_print() {
    colored::control::set_override(false);
    let report = Report::new_byte_spanned(
        "let x = 1;\nlet y = 2;\n",
        vec![(4..5, "variable".to_string(), (255, 0, 0))],
    )
    .with_theme(plain_theme());
    assert_eq!(
        report.display().unwrap(),
        vec![
            "   1.  let x = 1; ",
            "           - ",
            "           | ",
            "           \\-- variable",
        ]
    );
}

#[test]
fn display_aligns_line_numbers_to_the_widest() {
    colored::control::set_override(false);
    let code = "1\n2\n3\n4\n5\n6\n7\n8\n9\n10\n";
    let report = Report::new_char_spanned(
        code,
        vec![
            (16..17, "nine".to_string(), (1, 1, 1)),
            (18..20, "ten".to_string(), (2, 2, 2)),
        ],
    )
    .with_theme(plain_theme());
    assert_eq!(
        report.display().unwrap(),
        vec![
            "    9.  9 ",
            "        - ",
            "        | ",
            "        \\-- nine",
            "   10.  10 ",
            "        -- ",
            "         | ",
            "         \\-- ten",
        ]
    );
}

#[test]
fn display_of_no_annotations_prints_nothing() {
    let report = Report::new_char_spanned("let x = 1;\n", vec![]);
    assert_eq!(report.display(), Ok(vec![]));
}

#[test]
fn display_with_colours() {
    colored::control::set_override(true);
    let report = Report::new_char_spanned("ab\n", vec![(1..2, "m".to_string(), (1, 2, 3))])
        .with_theme(plain_theme());
    let lines = report.display().unwrap();
    assert_eq!(lines.len(), 4);
    // which colour code is written depends on the terminal: take the code
    // of the first coloured cell and expect it before every other
    let first = &lines[0];
    assert!(first.starts_with("   1.  a\u{1b}["), "{:?}", first);
    let code = &first[8..first.find("mb").unwrap() + 1];
    let tint = |text: &str| format!("{}{}\u{1b}[0m", code, text);
    assert_eq!(
        lines,
        vec![
            format!("   1.  a{} ", tint("b")),
            format!("        {} ", tint("-")),
            format!("        {} ", tint("|")),
            format!("        {}{}{} m", tint("\\"), tint("-"), tint("-")),
        ]
    );
}
