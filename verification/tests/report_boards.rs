use lyneate::{
    BoardRow, CharSpan, Report, ReportError, Theme, ThemeChars, ThemeEffects, ThemeSizing,
};

fn picture(board: &[BoardRow]) -> Vec<String> {
    board
        .iter()
        .map(|row| {
            let cells: String = row.cells.iter().map(|c| c.ch).collect();
            match &row.end_str {
                Some(message) => format!("{}|{}", cells, message),
                None => cells,
            }
        })
        .collect()
}

fn ascii_theme() -> Theme {
    Theme {
        chars: ThemeChars::ascii(),
        effects: ThemeEffects::none(),
        sizing: ThemeSizing::default(),
    }
}

fn note(range: std::ops::Range<usize>, message: &str) -> (std::ops::Range<usize>, String, (u8, u8, u8)) {
    (range, message.to_string(), (255, 0, 0))
}

#[test]
fn single_underline_under_x() {
    let report = Report::new_byte_spanned(
        "let x = 1;\nlet y = 2;\n",
        vec![(4..5, "variable".to_string(), (255, 0, 0))],
    )
    .with_theme(ascii_theme());
    let board = report.board().unwrap();
    assert_eq!(
        picture(&board),
        vec!["let x = 1;", "    -", "    |", "    \\--|variable"]
    );
    assert_eq!(board[0].line, Some(0));
    assert_eq!(board[1].line, None);
    // the source line is coloured under the span and nowhere else
    for (i, cell) in board[0].cells.iter().enumerate() {
        assert_eq!(cell.color, if i == 4 { Some((255, 0, 0)) } else { None });
    }
    // the underline, the connector and the curve have the colour too
    assert_eq!(board[1].cells[4].color, Some((255, 0, 0)));
    assert_eq!(board[2].cells[4].color, Some((255, 0, 0)));
    assert_eq!(board[3].cells[4].color, Some((255, 0, 0)));
    assert_eq!(board[3].end_str.as_deref(), Some("variable"));
}

#[test]
fn single_underline_in_box_drawing_characters() {
    let report = Report::new_char_spanned("let x = 1;\n", vec![note(4..9, "binding")]);
    let board = report.board().unwrap();
    assert_eq!(
        picture(&board),
        vec!["let x = 1;", "    ──┬──", "      │", "      ╰──|binding"]
    );
}

#[test]
fn underline_has_the_length_of_the_span() {
    for (start, end) in [(0usize, 1usize), (0, 10), (3, 7), (9, 10)] {
        let report = Report::new_char_spanned("0123456789\n", vec![note(start..end, "m")])
            .with_theme(ascii_theme());
        let board = report.board().unwrap();
        assert_eq!(picture(&board)[0], "0123456789");
        let underline: String = board[1].cells.iter().map(|c| c.ch).collect();
        assert_eq!(underline, format!("{}{}", " ".repeat(start), "-".repeat(end - start)));
        assert_eq!(board[3].end_str.as_deref(), Some("m"));
    }
}

#[test]
fn underlines_that_do_not_overlap_all_show() {
    let report = Report::new_char_spanned(
        "alpha beta gamma\nsecond line\n",
        vec![
            (6..10, "two".to_string(), (0, 2, 0)),
            (0..5, "one".to_string(), (1, 0, 0)),
            (17..23, "three".to_string(), (0, 0, 3)),
        ],
    )
    .with_theme(ascii_theme());
    let board = report.board().unwrap();
    assert_eq!(
        picture(&board),
        vec![
            "alpha beta gamma",
            "----- ----",
            "  |     |",
            "  |     \\--|two",
            "  |",
            "  \\--|one",
            "second line",
            "------",
            "   |",
            "   \\--|three",
        ]
    );
    assert_eq!(board[0].line, Some(0));
    assert_eq!(board[6].line, Some(1));
    let colours: Vec<Option<(u8, u8, u8)>> = board[1].cells.iter().map(|c| c.color).collect();
    assert_eq!(&colours[0..5], &[Some((1, 0, 0)); 5]);
    assert_eq!(colours[5], None);
    assert_eq!(&colours[6..10], &[Some((0, 2, 0)); 4]);
}

#[test]
fn two_overlapping_underlines() {
    let report = Report::new_char_spanned(
        "0123456789abcdef\n",
        vec![
            (0..10, "outer".to_string(), (1, 2, 3)),
            (4..6, "inner".to_string(), (4, 5, 6)),
        ],
    )
    .with_theme(ascii_theme());
    let board = report.board().unwrap();
    assert_eq!(
        picture(&board),
        vec![
            "0123456789abcdef",
            "----------",
            "     |  |",
            "     |  \\--|outer",
            "     |",
            "     \\--|inner",
        ]
    );
    // the later annotation wins where the two overlap
    let colours: Vec<Option<(u8, u8, u8)>> = board[0].cells.iter().map(|c| c.color).collect();
    assert_eq!(&colours[0..4], &[Some((1, 2, 3)); 4]);
    assert_eq!(&colours[4..6], &[Some((4, 5, 6)); 2]);
    assert_eq!(&colours[6..10], &[Some((1, 2, 3)); 4]);
    assert_eq!(&colours[10..16], &[None; 6]);
    assert_eq!(board[1].cells[4].color, Some((4, 5, 6)));
    assert_eq!(board[1].cells[8].color, Some((1, 2, 3)));
}

#[test]
fn bracket_over_three_lines() {
    let report = Report::new_char_spanned("aaa\nbbb\nccc\n", vec![note(1..10, "all of it")])
        .with_theme(ascii_theme());
    let board = report.board().unwrap();
    assert_eq!(
        picture(&board),
        vec!["/-> aaa", ":", "|-> ccc", "|", "\\--|all of it"]
    );
    let lines: Vec<Option<usize>> = board.iter().map(|row| row.line).collect();
    assert_eq!(lines, vec![Some(0), None, Some(2), None, None]);
    // the first line is coloured from the start of the span to the end of
    // its text, the last line from its start to the end of the span
    let first: Vec<bool> = board[0].cells.iter().map(|c| c.color.is_some()).collect();
    assert_eq!(first, vec![true, true, true, false, false, true, true]);
    let last: Vec<bool> = board[2].cells.iter().map(|c| c.color.is_some()).collect();
    assert_eq!(last, vec![true, true, true, false, true, true, false]);
}

#[test]
fn bracket_stem_is_solid_on_a_line_shown_in_between() {
    let report = Report::new_char_spanned(
        "aaa\nbbb\nccc\n",
        vec![
            (1..10, "all of it".to_string(), (9, 9, 9)),
            (4..7, "middle".to_string(), (1, 1, 1)),
        ],
    );
    let board = report.board().unwrap();
    assert_eq!(
        picture(&board),
        vec![
            "╭─▶ aaa",
            "│   bbb",
            "╵   ─┬─",
            "╵    │",
            "╵    ╰──|middle",
            "├─▶ ccc",
            "│",
            "╰──|all of it",
        ]
    );
    assert_eq!(board[1].cells[0].color, Some((9, 9, 9)));
}

#[test]
fn nested_brackets() {
    let report = Report::new_char_spanned(
        "a\nb\nc\nd\ne\n",
        vec![
            (0..7, "A".to_string(), (1, 0, 0)),
            (2..5, "B".to_string(), (0, 1, 0)),
        ],
    )
    .with_theme(ascii_theme());
    let board = report.board().unwrap();
    assert_eq!(
        picture(&board),
        vec![
            "   /-> a",
            "/->|   b",
            "|->|   c",
            "|  |-> d",
            "|  |",
            "|  \\--|A",
            "|",
            "\\--|B",
        ]
    );
}

#[test]
fn arms_of_length_zero_leave_only_the_curves() {
    let theme = Theme {
        chars: ThemeChars::ascii(),
        effects: ThemeEffects::none(),
        sizing: ThemeSizing {
            underline_arm_length: 0,
            side_arm_length: 0,
            side_pointer_length: 0,
            ..ThemeSizing::default()
        },
    };
    let report = Report::new_char_spanned(
        "aaa\nbbb\n",
        vec![note(1..6, "two lines"), note(0..1, "one")],
    )
    .with_theme(theme);
    let board = report.board().unwrap();
    assert_eq!(
        picture(&board),
        vec!["/ aaa", ": -", ": |", ": \\|one", "| bbb", "|", "\\|two lines"]
    );
}

#[test]
fn longer_arms() {
    let theme = Theme {
        chars: ThemeChars::ascii(),
        effects: ThemeEffects::none(),
        sizing: ThemeSizing { underline_arm_length: 5, ..ThemeSizing::default() },
    };
    let report = Report::new_char_spanned("abc\n", vec![note(1..2, "b")]).with_theme(theme);
    let board = report.board().unwrap();
    assert_eq!(picture(&board), vec!["abc", " -", " |", " \\-----|b"]);
}

#[test]
fn no_annotations_give_an_empty_board() {
    let report = Report::new_char_spanned("let x = 1;\n", vec![]);
    assert!(report.board().unwrap().is_empty());
    let report = Report::new_byte_spanned("", vec![]);
    assert!(report.board().unwrap().is_empty());
}

#[test]
fn lines_without_annotations_give_no_rows() {
    let report = Report::new_char_spanned("one\ntwo\nthree\nfour\n", vec![note(8..13, "m")])
        .with_theme(ascii_theme());
    let board = report.board().unwrap();
    assert_eq!(picture(&board), vec!["three", "-----", "  |", "  \\--|m"]);
    assert_eq!(board[0].line, Some(2));
}

#[test]
fn trailing_white_space_is_not_shown() {
    let report = Report::new_char_spanned("ab \t \nnext\n", vec![note(0..1, "m")])
        .with_theme(ascii_theme());
    let board = report.board().unwrap();
    assert_eq!(picture(&board)[0], "ab");
}

#[test]
fn highlight_past_the_visible_text_grows_the_row() {
    let report = Report::new_char_spanned("ab   \n", vec![note(1..5, "m")])
        .with_theme(ascii_theme());
    let board = report.board().unwrap();
    assert_eq!(picture(&board), vec!["ab   ", " ----", "   |", "   \\--|m"]);
    let colours: Vec<bool> = board[0].cells.iter().map(|c| c.color.is_some()).collect();
    assert_eq!(colours, vec![false, true, true, true, true]);
}

#[test]
fn annotation_at_the_end_of_the_source_is_on_the_last_line() {
    let report = Report::new_char_spanned("ab\ncd", vec![note(5..5, "end")])
        .with_theme(ascii_theme());
    let board = report.board().unwrap();
    assert_eq!(picture(&board), vec!["cd", "  -", "  |", "  \\--|end"]);
    assert_eq!(board[0].line, Some(1));
    // the junction of an empty span has no colour
    assert_eq!(board[1].cells[2].color, None);
}

#[test]
fn byte_spans_count_bytes_and_char_spans_characters() {
    // é takes two bytes: the 1 is at byte 5 and at character 4
    let bytes = Report::new_byte_spanned("é = 1;\n", vec![note(5..6, "one")])
        .with_theme(ascii_theme());
    let chars = Report::new_char_spanned("é = 1;\n", vec![note(4..5, "one")])
        .with_theme(ascii_theme());
    let expected = vec!["é = 1;", "    -", "    |", "    \\--|one"];
    assert_eq!(picture(&bytes.board().unwrap()), expected);
    assert_eq!(picture(&chars.board().unwrap()), expected);
}

#[test]
fn byte_and_char_spans_agree_on_ascii() {
    let code = "let x = 1;\nlet y = 2;\nlet z = 3;\n";
    let notes = vec![
        (4..5, "x".to_string(), (1, 1, 1)),
        (8..26, "both".to_string(), (2, 2, 2)),
        (22..33, "z".to_string(), (3, 3, 3)),
    ];
    let bytes = Report::new_byte_spanned(code, notes.clone()).board().unwrap();
    let chars = Report::new_char_spanned(code, notes).board().unwrap();
    assert_eq!(bytes, chars);
    assert!(!bytes.is_empty());
}

#[test]
fn span_that_runs_backwards_is_refused() {
    let report = Report::new_char_spanned("let x = 1;\n", vec![note(5..3, "m")]);
    assert_eq!(report.board(), Err(ReportError::InvalidSpan { index: 0 }));
    let report = Report::new_byte_spanned("let x = 1;\n", vec![note(5..3, "m")]);
    assert_eq!(report.board(), Err(ReportError::InvalidSpan { index: 0 }));
}

#[test]
fn span_past_the_end_is_refused() {
    let report = Report::new_char_spanned("abc", vec![note(0..3, "fine"), note(2..4, "m")]);
    assert_eq!(report.board(), Err(ReportError::InvalidSpan { index: 1 }));
    let report = Report::new_byte_spanned("abc", vec![note(0..3, "fine"), note(4..4, "m")]);
    assert_eq!(report.board(), Err(ReportError::InvalidSpan { index: 1 }));
    // in characters the text is shorter than in bytes
    let report = Report::new_char_spanned("éé", vec![note(0..3, "m")]);
    assert_eq!(report.board(), Err(ReportError::InvalidSpan { index: 0 }));
}

#[test]
fn byte_span_that_splits_a_character_is_refused() {
    let report = Report::new_byte_spanned("é = 1;", vec![note(1..2, "m")]);
    assert_eq!(report.board(), Err(ReportError::InvalidSpan { index: 0 }));
    let report = Report::new_byte_spanned("é = 1;", vec![note(0..1, "m")]);
    assert_eq!(report.board(), Err(ReportError::InvalidSpan { index: 0 }));
}

#[test]
fn first_invalid_span_is_reported() {
    let report = Report::new_char_spanned(
        "abc",
        vec![note(0..1, "fine"), note(3..2, "bad"), note(9..10, "worse")],
    );
    assert_eq!(report.board(), Err(ReportError::InvalidSpan { index: 1 }));
    assert_eq!(report.checked_spans(), Err(ReportError::InvalidSpan { index: 1 }));
}

#[test]
fn sizes_beyond_the_limit_are_refused() {
    let theme = Theme {
        sizing: ThemeSizing { underline_arm_length: usize::MAX, ..ThemeSizing::default() },
        ..Theme::default()
    };
    let report = Report::new_char_spanned("abc", vec![note(0..1, "m")]).with_theme(theme);
    assert!(!report.check_fits());
    assert_eq!(report.board(), Err(ReportError::TooLarge));
    let theme = Theme {
        sizing: ThemeSizing { underline_spacing: usize::MAX / 8, ..ThemeSizing::default() },
        ..Theme::default()
    };
    let report = Report::new_char_spanned("abc", vec![note(0..1, "m")]).with_theme(theme);
    assert_eq!(report.board(), Err(ReportError::TooLarge));
    assert_eq!(report.display(), Err(ReportError::TooLarge));
}

#[test]
fn invalid_span_is_reported_before_the_size() {
    let theme = Theme {
        sizing: ThemeSizing { side_arm_length: usize::MAX, ..ThemeSizing::default() },
        ..Theme::default()
    };
    let report = Report::new_char_spanned("abc", vec![note(2..1, "m")]).with_theme(theme);
    assert_eq!(report.board(), Err(ReportError::InvalidSpan { index: 0 }));
}

#[test]
fn default_sizes_fit() {
    let report = Report::new_char_spanned("abc", vec![note(0..1, "m")]);
    assert!(report.check_fits());
    assert_eq!(report.theme, Theme::default());
}

#[test]
fn checked_spans_are_in_characters() {
    let report = Report::new_byte_spanned("é = 1;", vec![note(0..2, "é"), note(5..6, "1")]);
    assert_eq!(
        report.checked_spans(),
        Ok(vec![CharSpan { start: 0, end: 1 }, CharSpan { start: 4, end: 5 }])
    );
}

#[test]
fn measure_gives_the_length_without_trailing_white_space() {
    let report = Report::new_char_spanned("ab  \n\n  cd\u{a0}\nx", vec![]);
    assert_eq!(report.measure(), vec![2, 0, 4, 1]);
}

#[test]
fn every_message_has_a_row_of_its_own() {
    let code = "fn main() {\n    let a = 1;\n    let b = a + a;\n    foo(a, b);\n}\n";
    let notes: Vec<(std::ops::Range<usize>, String, (u8, u8, u8))> = vec![
        (0..63, "m0".to_string(), (1, 1, 1)),
        (16..17, "m1".to_string(), (2, 2, 2)),
        (16..26, "m2".to_string(), (3, 3, 3)),
        (20..45, "m3".to_string(), (4, 4, 4)),
        (35..40, "m4".to_string(), (5, 5, 5)),
        (35..36, "m5".to_string(), (6, 6, 6)),
        (12..58, "m6".to_string(), (7, 7, 7)),
        (39..40, "m7".to_string(), (8, 8, 8)),
        (63..63, "m8".to_string(), (9, 9, 9)),
    ];
    let report = Report::new_char_spanned(code, notes.clone());
    let board = report.board().unwrap();
    for (_, message, _) in &notes {
        let rows = board
            .iter()
            .filter(|row| row.end_str.as_deref() == Some(message.as_str()))
            .count();
        assert_eq!(rows, 1, "{}", message);
    }
    let with_message = board.iter().filter(|row| row.end_str.is_some()).count();
    assert_eq!(with_message, notes.len());
    // rows with a message are spacer rows
    assert!(board.iter().all(|row| row.end_str.is_none() || row.line.is_none()));
}
