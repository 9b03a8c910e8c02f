use lyneate::classify::{LinearAnnotation, MultilineAnnotation};
use lyneate::layout::{lay_out, Highlight, LineState, MultilineCommand, UnderlineCommand};
use lyneate::underline::{connector_anchor, overlay_parts, visible_parts};
use lyneate::{CharSpan, ThemeSizing};

fn span(start: usize, end: usize) -> CharSpan {
    CharSpan { start, end }
}

fn on_line(id: usize, line: usize, start: usize, end: usize) -> LinearAnnotation {
    LinearAnnotation { id, line, span: span(start, end) }
}

#[test]
fn overlay_parts_cuts_every_part() {
    assert_eq!(
        overlay_parts(&vec![span(0, 10)], span(4, 6)),
        vec![span(0, 4), span(6, 10)]
    );
    assert_eq!(
        overlay_parts(&vec![span(0, 4), span(6, 10)], span(3, 7)),
        vec![span(0, 3), span(7, 10)]
    );
    assert_eq!(
        overlay_parts(&vec![span(0, 4), span(6, 10)], span(0, 5)),
        vec![span(6, 10)]
    );
    assert_eq!(overlay_parts(&vec![span(0, 4), span(6, 10)], span(0, 10)), vec![]);
}

#[test]
fn later_annotations_on_the_line_hide_earlier_ones() {
    let linear = vec![on_line(0, 0, 0, 10), on_line(1, 0, 4, 6)];
    assert_eq!(visible_parts(&linear, 0), vec![span(0, 4), span(6, 10)]);
    assert_eq!(visible_parts(&linear, 1), vec![span(4, 6)]);
}

#[test]
fn annotations_on_other_lines_hide_nothing() {
    let linear = vec![on_line(0, 0, 0, 10), on_line(1, 1, 4, 6), on_line(2, 0, 8, 12)];
    assert_eq!(visible_parts(&linear, 0), vec![span(0, 8)]);
    assert_eq!(visible_parts(&linear, 1), vec![span(4, 6)]);
}

#[test]
fn several_later_annotations_cut_one_after_the_other() {
    let linear = vec![on_line(0, 3, 0, 10), on_line(1, 3, 2, 4), on_line(2, 3, 6, 8)];
    assert_eq!(
        visible_parts(&linear, 0),
        vec![span(0, 2), span(4, 6), span(8, 10)]
    );
}

#[test]
fn anchor_is_the_middle_of_the_span_where_it_is_visible() {
    assert_eq!(connector_anchor(span(4, 6), &vec![span(4, 6)]), 5);
    assert_eq!(connector_anchor(span(0, 10), &vec![span(0, 8)]), 5);
    assert_eq!(connector_anchor(span(0, 1), &vec![span(0, 1)]), 0);
    assert_eq!(connector_anchor(span(3, 3), &vec![span(3, 3)]), 3);
}

#[test]
fn anchor_moves_to_the_nearest_visible_part() {
    // the middle, 5, is hidden; 6..10 starts right behind it
    assert_eq!(connector_anchor(span(0, 10), &vec![span(0, 4), span(6, 10)]), 8);
    // 0..5 ends right before the middle, 7
    assert_eq!(connector_anchor(span(0, 14), &vec![span(0, 7), span(12, 14)]), 3);
}

#[test]
fn anchor_takes_the_first_of_equally_near_parts() {
    assert_eq!(connector_anchor(span(0, 10), &vec![span(0, 3), span(8, 10)]), 1);
}

#[test]
fn anchor_is_the_middle_where_nothing_is_visible() {
    assert_eq!(connector_anchor(span(2, 8), &vec![]), 5);
}

#[test]
fn two_underlines_on_one_line_stack() {
    let linear = vec![on_line(0, 0, 0, 10), on_line(1, 0, 4, 6)];
    let layout = lay_out(17, 2, &vec![16, 0], &linear, &vec![], &ThemeSizing::default());
    assert_eq!(layout.gutter, 0);
    assert_eq!(
        layout.lines,
        vec![
            LineState { referenced: true, spacing: 5 },
            LineState { referenced: false, spacing: 0 },
        ]
    );
    assert_eq!(
        layout.underlines,
        vec![
            UnderlineCommand { id: 0, line: 0, start: 0, end: 10, depth: 2, connector_pos: 8 },
            UnderlineCommand { id: 1, line: 0, start: 4, end: 6, depth: 4, connector_pos: 5 },
        ]
    );
    assert_eq!(
        layout.highlights,
        vec![
            Highlight { id: 0, line: 0, start: 0, end: 10 },
            Highlight { id: 1, line: 0, start: 4, end: 6 },
        ]
    );
    assert!(layout.brackets.is_empty());
    // the connector of the first annotation is outside the hidden stretch
    let anchor = layout.underlines[0].connector_pos;
    assert!(!(4..6).contains(&anchor));
}

#[test]
fn each_further_underline_is_one_row_and_the_spacing_deeper() {
    let linear = vec![on_line(0, 0, 0, 10), on_line(1, 0, 4, 6), on_line(2, 0, 12, 13)];
    for spacing in [0usize, 1, 2, 5] {
        let sizing = ThemeSizing { underline_spacing: spacing, ..ThemeSizing::default() };
        let layout = lay_out(17, 3, &vec![16, 0], &linear, &vec![], &sizing);
        let depths: Vec<usize> = layout.underlines.iter().map(|u| u.depth).collect();
        assert_eq!(depths[0], 1 + spacing);
        assert_eq!(depths[1], depths[0] + 1 + spacing);
        assert_eq!(depths[2], depths[1] + 1 + spacing);
        assert_eq!(layout.lines[0].spacing, 3 * (1 + spacing) + 1);
    }
}

#[test]
fn without_underline_spacing_the_second_depth_is_one_greater() {
    let linear = vec![on_line(0, 0, 0, 10), on_line(1, 0, 4, 6)];
    let sizing = ThemeSizing { underline_spacing: 0, ..ThemeSizing::default() };
    let layout = lay_out(17, 2, &vec![16, 0], &linear, &vec![], &sizing);
    assert_eq!(layout.underlines[0].depth, 1);
    assert_eq!(layout.underlines[1].depth, 2);
    assert_eq!(layout.lines[0].spacing, 3);
}

#[test]
fn underlines_on_different_lines_do_not_stack() {
    let linear = vec![on_line(0, 1, 0, 2), on_line(1, 0, 1, 3)];
    let layout = lay_out(8, 2, &vec![3, 3, 0], &linear, &vec![], &ThemeSizing::default());
    assert_eq!(
        layout.lines,
        vec![
            LineState { referenced: true, spacing: 3 },
            LineState { referenced: true, spacing: 3 },
            LineState { referenced: false, spacing: 0 },
        ]
    );
    assert_eq!(layout.underlines[0].depth, 2);
    assert_eq!(layout.underlines[1].depth, 2);
}

#[test]
fn one_bracket_over_three_lines() {
    let multi = vec![MultilineAnnotation { id: 0, start_line: 0, end_line: 2, pre_len: 1, end_len: 2 }];
    let layout = lay_out(12, 1, &vec![3, 3, 3, 0], &vec![], &multi, &ThemeSizing::default());
    assert_eq!(layout.gutter, 4);
    assert_eq!(
        layout.lines,
        vec![
            LineState { referenced: true, spacing: 1 },
            LineState { referenced: false, spacing: 0 },
            LineState { referenced: true, spacing: 2 },
            LineState { referenced: false, spacing: 0 },
        ]
    );
    assert_eq!(
        layout.brackets,
        vec![MultilineCommand {
            id: 0,
            start_line: 0,
            end_line: 2,
            spacing_end: 2,
            depth: 2,
            side_height: 0,
            column: 0,
        }]
    );
    assert_eq!(
        layout.highlights,
        vec![
            Highlight { id: 0, line: 0, start: 1, end: 3 },
            Highlight { id: 0, line: 2, start: 0, end: 2 },
        ]
    );
    assert!(layout.underlines.is_empty());
}

#[test]
fn nested_brackets_share_the_gutter() {
    let multi = vec![
        MultilineAnnotation { id: 0, start_line: 0, end_line: 3, pre_len: 0, end_len: 1 },
        MultilineAnnotation { id: 1, start_line: 1, end_line: 2, pre_len: 0, end_len: 1 },
    ];
    let trimmed = vec![1, 1, 1, 1, 1, 0];
    let layout = lay_out(10, 2, &trimmed, &vec![], &multi, &ThemeSizing::default());
    assert_eq!(layout.gutter, 7);
    assert_eq!(
        layout.brackets,
        vec![
            MultilineCommand {
                id: 0,
                start_line: 0,
                end_line: 3,
                spacing_end: 3,
                depth: 2,
                side_height: 0,
                column: 3,
            },
            MultilineCommand {
                id: 1,
                start_line: 1,
                end_line: 2,
                spacing_end: 3,
                depth: 4,
                side_height: 1,
                column: 0,
            },
        ]
    );
    let spacing: Vec<usize> = layout.lines.iter().map(|l| l.spacing).collect();
    assert_eq!(spacing, vec![0, 0, 0, 4, 0, 0]);
    let referenced: Vec<bool> = layout.lines.iter().map(|l| l.referenced).collect();
    assert_eq!(referenced, vec![true, true, true, true, false, false]);
}

#[test]
fn gutter_width_follows_the_pointer_length() {
    let multi = vec![
        MultilineAnnotation { id: 0, start_line: 0, end_line: 3, pre_len: 0, end_len: 1 },
        MultilineAnnotation { id: 1, start_line: 1, end_line: 2, pre_len: 0, end_len: 1 },
    ];
    let trimmed = vec![1, 1, 1, 1, 1, 0];
    for (pointer, gutter, columns) in [(0usize, 3usize, [1usize, 0]), (1, 5, [2, 0]), (4, 11, [5, 0])] {
        let sizing = ThemeSizing { side_pointer_length: pointer, ..ThemeSizing::default() };
        let layout = lay_out(10, 2, &trimmed, &vec![], &multi, &sizing);
        assert_eq!(layout.gutter, gutter);
        assert_eq!(layout.brackets[0].column, columns[0]);
        assert_eq!(layout.brackets[1].column, columns[1]);
    }
}

#[test]
fn gutter_is_sized_for_the_largest_group() {
    let multi = vec![
        MultilineAnnotation { id: 0, start_line: 0, end_line: 1, pre_len: 0, end_len: 1 },
        MultilineAnnotation { id: 1, start_line: 3, end_line: 5, pre_len: 0, end_len: 1 },
        MultilineAnnotation { id: 2, start_line: 4, end_line: 5, pre_len: 0, end_len: 1 },
    ];
    let trimmed = vec![1, 1, 1, 1, 1, 1, 0];
    let layout = lay_out(12, 3, &trimmed, &vec![], &multi, &ThemeSizing::default());
    assert_eq!(layout.gutter, 7);
    // the lone bracket of the first group is placed as a first member is
    assert_eq!(layout.brackets[0].column, 3);
    assert_eq!(layout.brackets[1].column, 3);
    assert_eq!(layout.brackets[2].column, 0);
}

#[test]
fn line_without_message_before_a_gap_gets_one_spacer() {
    // lines 0 and 2 are referred to, line 1 is not
    let multi = vec![MultilineAnnotation { id: 0, start_line: 0, end_line: 2, pre_len: 0, end_len: 1 }];
    let layout = lay_out(12, 1, &vec![3, 3, 3, 0], &vec![], &multi, &ThemeSizing::default());
    assert_eq!(layout.lines[0], LineState { referenced: true, spacing: 1 });
    // lines 0 and 1 are referred to and follow each other: no spacer
    let multi = vec![MultilineAnnotation { id: 0, start_line: 0, end_line: 1, pre_len: 0, end_len: 1 }];
    let layout = lay_out(12, 1, &vec![3, 3, 3, 0], &vec![], &multi, &ThemeSizing::default());
    assert_eq!(layout.lines[0], LineState { referenced: true, spacing: 0 });
    assert_eq!(layout.lines[1], LineState { referenced: true, spacing: 2 });
}

#[test]
fn underline_and_bracket_message_below_the_same_line() {
    let linear = vec![on_line(0, 1, 0, 1)];
    let multi = vec![MultilineAnnotation { id: 1, start_line: 0, end_line: 1, pre_len: 0, end_len: 1 }];
    let layout = lay_out(8, 2, &vec![3, 3, 0], &linear, &multi, &ThemeSizing::default());
    assert_eq!(layout.lines[1], LineState { referenced: true, spacing: 5 });
    assert_eq!(layout.underlines[0].depth, 2);
    assert_eq!(layout.brackets[0].depth, 5);
    // brackets are highlighted before underlines
    assert_eq!(
        layout.highlights,
        vec![
            Highlight { id: 1, line: 0, start: 0, end: 3 },
            Highlight { id: 1, line: 1, start: 0, end: 1 },
            Highlight { id: 0, line: 1, start: 0, end: 1 },
        ]
    );
}
