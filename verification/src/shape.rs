//! The shape of the board: painting changes cells and messages, never the
//! number of rows nor the source line that a row shows.

use crate::board::{Color, RowView};
use crate::compose::{
    blank_rows, bracket_drawn, bracket_pass, finished, on_row, painted, recolor_pass, recolored,
    stem, underline_drawn, underline_pass, written,
};
use crate::layout::{row_of, BracketPlan, HighlightPlan, LayoutPlan, LineSpace, UnderlinePlan};
use crate::lines::LineRecord;
use crate::theme::Theme;
use std::ops::Range;
use vstd::prelude::*;

verus! {

/// Whether two boards have the same rows but for their cells and messages:
/// as many rows, and row by row the same source line.
pub open spec fn same_shape(a: Seq<RowView>, b: Seq<RowView>) -> bool {
    &&& a.len() == b.len()
    &&& forall|r: int| 0 <= r < a.len() ==> (#[trigger] a[r]).line == b[r].line
}

/// Recolouring a row leaves the source line that it shows.
pub proof fn lemma_recolor_line(row: RowView, start: int, end: int, color: Option<Color>)
    ensures
        row.recolor(start, end, color).line == row.line,
    decreases end - start,
{
    if start < end {
        lemma_recolor_line(row, start, end - 1, color);
    }
}

/// Writing on a row leaves the source line that it shows.
pub proof fn lemma_write_line(row: RowView, text: Seq<char>, start: int, color: Option<Color>)
    ensures
        row.write(text, start, color).line == row.line,
    decreases text.len(),
{
    if text.len() > 0 {
        lemma_write_line(row, text.drop_last(), start, color);
    }
}

/// Drawing a stem leaves the shape of the board.
pub proof fn lemma_stem_shape(
    board: Seq<RowView>,
    from: int,
    to: int,
    col: int,
    solid: char,
    dotted: char,
    color: Option<Color>,
)
    ensures
        same_shape(stem(board, from, to, col, solid, dotted, color), board),
    decreases to - from,
{
    if from < to {
        lemma_stem_shape(board, from, to - 1, col, solid, dotted, color);
    }
}

/// Writing on the board leaves its shape.
pub proof fn lemma_written_shape(
    board: Seq<RowView>,
    r: int,
    text: Seq<char>,
    col: int,
    color: Option<Color>,
)
    ensures
        same_shape(written(board, r, text, col, color), board),
{
    if 0 <= r < board.len() {
        lemma_write_line(board[r], text, col, color);
    }
}

/// Applying a highlight leaves the shape of the board.
pub proof fn lemma_recolored_shape(
    board: Seq<RowView>,
    h: HighlightPlan,
    plan: LayoutPlan,
    color: Option<Color>,
)
    ensures
        same_shape(recolored(board, h, plan, color), board),
{
    let r = row_of(plan.lines, h.line);
    if 0 <= r < board.len() {
        lemma_recolor_line(board[r], h.start + plan.gutter, h.end + plan.gutter, color);
    }
}

/// Drawing a bracket leaves the shape of the board.
pub proof fn lemma_bracket_shape(
    board: Seq<RowView>,
    b: BracketPlan,
    plan: LayoutPlan,
    theme: Theme,
    color: Option<Color>,
    message: Seq<char>,
)
    ensures
        same_shape(bracket_drawn(board, b, plan, theme, color, message), board),
{
    let chars = theme.chars;
    let start_row = row_of(plan.lines, b.start_line);
    let end_row = row_of(plan.lines, b.end_line);
    let message_row = row_of(plan.lines, b.spacing_end) + b.depth;
    let pointer = crate::compose::arm(
        chars.side_pointer_line,
        chars.side_pointer,
        theme.sizing.side_pointer_length as int,
    );
    let b1 = stem(
        board,
        start_row + 1,
        end_row,
        b.column,
        chars.side_vertical,
        chars.side_vertical_dotted,
        color,
    );
    lemma_stem_shape(
        board,
        start_row + 1,
        end_row,
        b.column,
        chars.side_vertical,
        chars.side_vertical_dotted,
        color,
    );
    let b2 = written(b1, start_row, seq![chars.top_curve] + pointer, b.column, color);
    lemma_written_shape(b1, start_row, seq![chars.top_curve] + pointer, b.column, color);
    let b3 = written(b2, end_row, seq![chars.side_junction] + pointer, b.column, color);
    lemma_written_shape(b2, end_row, seq![chars.side_junction] + pointer, b.column, color);
    let b4 = stem(
        b3,
        end_row + 1,
        message_row,
        b.column,
        chars.side_vertical,
        chars.side_vertical,
        color,
    );
    lemma_stem_shape(
        b3,
        end_row + 1,
        message_row,
        b.column,
        chars.side_vertical,
        chars.side_vertical,
        color,
    );
    let bottom = seq![chars.bottom_curve] + crate::compose::arm(
        chars.msg_line,
        chars.msg_pointer,
        theme.sizing.side_arm_length as int,
    );
    lemma_written_shape(b4, message_row, bottom, b.column, color);
}

/// Drawing an underline leaves the shape of the board.
pub proof fn lemma_underline_shape(
    board: Seq<RowView>,
    u: UnderlinePlan,
    plan: LayoutPlan,
    theme: Theme,
    color: Option<Color>,
    message: Seq<char>,
)
    ensures
        same_shape(underline_drawn(board, u, plan, theme, color, message), board),
{
    let chars = theme.chars;
    let row = row_of(plan.lines, u.line) + 1;
    let col = u.anchor + plan.gutter;
    let line = Seq::new((u.end - u.start) as nat, |i: int| chars.underline);
    let b1 = written(board, row, line, u.start + plan.gutter, color);
    lemma_written_shape(board, row, line, u.start + plan.gutter, color);
    let b2 = on_row(b1, row, b1[row].put_char(col, chars.underline_junction));
    let b3 = stem(
        b2,
        row + 1,
        row + u.depth,
        col,
        chars.underline_vertical,
        chars.underline_vertical,
        color,
    );
    lemma_stem_shape(
        b2,
        row + 1,
        row + u.depth,
        col,
        chars.underline_vertical,
        chars.underline_vertical,
        color,
    );
    let bottom = seq![chars.bottom_curve] + crate::compose::arm(
        chars.msg_line,
        chars.msg_pointer,
        theme.sizing.underline_arm_length as int,
    );
    lemma_written_shape(b3, row + u.depth, bottom, col, color);
}

/// Applying highlights leaves the shape of the board.
pub proof fn lemma_recolor_pass_shape(
    board: Seq<RowView>,
    plan: LayoutPlan,
    annotations: Seq<(Range<usize>, String, Color)>,
    upto: int,
)
    ensures
        same_shape(recolor_pass(board, plan, annotations, upto), board),
    decreases upto,
{
    if upto > 0 {
        lemma_recolor_pass_shape(board, plan, annotations, upto - 1);
        let h = plan.highlights[upto - 1];
        lemma_recolored_shape(
            recolor_pass(board, plan, annotations, upto - 1),
            h,
            plan,
            crate::compose::color_of(annotations, h.id),
        );
    }
}

/// Drawing brackets leaves the shape of the board.
pub proof fn lemma_bracket_pass_shape(
    board: Seq<RowView>,
    plan: LayoutPlan,
    annotations: Seq<(Range<usize>, String, Color)>,
    theme: Theme,
    upto: int,
)
    ensures
        same_shape(bracket_pass(board, plan, annotations, theme, upto), board),
    decreases upto,
{
    if upto > 0 {
        lemma_bracket_pass_shape(board, plan, annotations, theme, upto - 1);
        let b = plan.brackets[upto - 1];
        lemma_bracket_shape(
            bracket_pass(board, plan, annotations, theme, upto - 1),
            b,
            plan,
            theme,
            crate::compose::color_of(annotations, b.id),
            crate::compose::message_of(annotations, b.id),
        );
    }
}

/// Drawing underlines leaves the shape of the board.
pub proof fn lemma_underline_pass_shape(
    board: Seq<RowView>,
    plan: LayoutPlan,
    annotations: Seq<(Range<usize>, String, Color)>,
    theme: Theme,
    upto: int,
)
    ensures
        same_shape(underline_pass(board, plan, annotations, theme, upto), board),
    decreases upto,
{
    if upto > 0 {
        lemma_underline_pass_shape(board, plan, annotations, theme, upto - 1);
        let u = plan.underlines[upto - 1];
        lemma_underline_shape(
            underline_pass(board, plan, annotations, theme, upto - 1),
            u,
            plan,
            theme,
            crate::compose::color_of(annotations, u.id),
            crate::compose::message_of(annotations, u.id),
        );
    }
}

/// Before anything is painted, a line that is referred to has its content
/// row at the row that the layout gives it, followed by the spacer rows
/// that it reserves; every content row shows a line before `upto`.
pub proof fn lemma_blank_rows_shape(
    lines: Seq<LineRecord>,
    trimmed: Seq<usize>,
    states: Seq<LineSpace>,
    gutter: int,
    upto: int,
)
    requires
        forall|i: int| 0 <= i < states.len() ==> (#[trigger] states[i]).spacing >= 0,
        0 <= upto <= states.len(),
        states.len() <= usize::MAX,
    ensures
        blank_rows(lines, trimmed, states, gutter, upto).len() == row_of(states, upto),
        forall|l: int|
            0 <= l < upto && (#[trigger] states[l]).referenced ==> {
                let r = row_of(states, l);
                &&& 0 <= r
                &&& r + states[l].spacing < row_of(states, upto)
                &&& blank_rows(lines, trimmed, states, gutter, upto)[r]
                    == crate::compose::content_row(
                    l,
                    lines[l].text@.take(trimmed[l] as int),
                    gutter,
                )
                &&& forall|k: int|
                    r < k <= r + states[l].spacing ==> #[trigger] blank_rows(
                        lines,
                        trimmed,
                        states,
                        gutter,
                        upto,
                    )[k] == crate::compose::spacer_row()
            },
        forall|r: int|
            0 <= r < row_of(states, upto) ==> match (#[trigger] blank_rows(
                lines,
                trimmed,
                states,
                gutter,
                upto,
            )[r]).line {
                Some(l) => l < upto,
                None => true,
            },
    decreases upto,
{
    if upto > 0 {
        lemma_blank_rows_shape(lines, trimmed, states, gutter, upto - 1);
        let before = blank_rows(lines, trimmed, states, gutter, upto - 1);
        let all = blank_rows(lines, trimmed, states, gutter, upto);
        let last = upto - 1;
        assert forall|l: int| 0 <= l < upto && (#[trigger] states[l]).referenced implies {
            let r = row_of(states, l);
            &&& 0 <= r
            &&& r + states[l].spacing < row_of(states, upto)
            &&& all[r] == crate::compose::content_row(
                l,
                lines[l].text@.take(trimmed[l] as int),
                gutter,
            )
            &&& forall|k: int|
                r < k <= r + states[l].spacing ==> #[trigger] all[k]
                    == crate::compose::spacer_row()
        } by {
            let r = row_of(states, l);
            if l < last {
                assert(all[r] == before[r]);
                assert forall|k: int| r < k <= r + states[l].spacing implies #[trigger] all[k]
                    == crate::compose::spacer_row() by {
                    assert(all[k] == before[k]);
                }
            } else {
                crate::layout::lemma_row_of_bound(states, last);
            }
        }
        assert forall|r: int| 0 <= r < row_of(states, upto) implies match (#[trigger] all[r]).line {
            Some(l) => l < upto,
            None => true,
        } by {
            if r < before.len() {
                assert(all[r] == before[r]);
            }
        }
    }
}

/// The finished board has the shape of the rows before anything was
/// painted.
pub proof fn lemma_painted_shape(
    lines: Seq<LineRecord>,
    trimmed: Seq<usize>,
    plan: LayoutPlan,
    annotations: Seq<(Range<usize>, String, Color)>,
    theme: Theme,
)
    ensures
        same_shape(
            painted(lines, trimmed, plan, annotations, theme),
            blank_rows(lines, trimmed, plan.lines, plan.gutter, plan.lines.len() as int),
        ),
{
    let rows = blank_rows(lines, trimmed, plan.lines, plan.gutter, plan.lines.len() as int);
    let recolored = recolor_pass(rows, plan, annotations, plan.highlights.len() as int);
    let bracketed = bracket_pass(recolored, plan, annotations, theme, plan.brackets.len() as int);
    lemma_recolor_pass_shape(rows, plan, annotations, plan.highlights.len() as int);
    lemma_bracket_pass_shape(recolored, plan, annotations, theme, plan.brackets.len() as int);
    lemma_underline_pass_shape(bracketed, plan, annotations, theme, plan.underlines.len() as int);
}

/// The rows of the finished board: as many as the layout counts; for each
/// line that is referred to its content row, at the row that the layout
/// gives it, followed by as many spacer rows as the line reserves; and
/// every content row shows one of the lines. Lines that are not referred
/// to have no row.
pub proof fn lemma_board_rows(
    lines: Seq<LineRecord>,
    trimmed: Seq<usize>,
    plan: LayoutPlan,
    annotations: Seq<(Range<usize>, String, Color)>,
    theme: Theme,
)
    requires
        forall|i: int| 0 <= i < plan.lines.len() ==> (#[trigger] plan.lines[i]).spacing >= 0,
        plan.lines.len() <= usize::MAX,
    ensures
        painted(lines, trimmed, plan, annotations, theme).len() == plan.rows(),
        forall|l: int|
            0 <= l < plan.lines.len() && (#[trigger] plan.lines[l]).referenced ==> {
                let r = row_of(plan.lines, l);
                let board = painted(lines, trimmed, plan, annotations, theme);
                &&& 0 <= r
                &&& r + plan.lines[l].spacing < board.len()
                &&& board[r].line == Some(l as usize)
                &&& forall|x: int|
                    r < x <= r + plan.lines[l].spacing ==> (#[trigger] board[x]).line is None
            },
        forall|r: int|
            0 <= r < plan.rows() ==> match (#[trigger] painted(
                lines,
                trimmed,
                plan,
                annotations,
                theme,
            )[r]).line {
                Some(l) => l < plan.lines.len() && plan.lines[l as int].referenced && r == row_of(
                    plan.lines,
                    l as int,
                ),
                None => true,
            },
{
    let n = plan.lines.len() as int;
    let board = painted(lines, trimmed, plan, annotations, theme);
    let rows = blank_rows(lines, trimmed, plan.lines, plan.gutter, n);
    lemma_painted_shape(lines, trimmed, plan, annotations, theme);
    lemma_blank_rows_shape(lines, trimmed, plan.lines, plan.gutter, n);
    lemma_content_rows(lines, trimmed, plan.lines, plan.gutter, n);
    assert forall|l: int| 0 <= l < n && (#[trigger] plan.lines[l]).referenced implies {
        let r = row_of(plan.lines, l);
        &&& 0 <= r
        &&& r + plan.lines[l].spacing < board.len()
        &&& board[r].line == Some(l as usize)
        &&& forall|x: int| r < x <= r + plan.lines[l].spacing ==> (#[trigger] board[x]).line is None
    } by {
        let r = row_of(plan.lines, l);
        assert(board[r].line == rows[r].line);
        assert forall|x: int| r < x <= r + plan.lines[l].spacing implies (
        #[trigger] board[x]).line is None by {
            assert(rows[x] == crate::compose::spacer_row());
            assert(board[x].line == rows[x].line);
        }
    }
    assert forall|r: int| 0 <= r < plan.rows() implies match (#[trigger] board[r]).line {
        Some(l) => l < n && plan.lines[l as int].referenced && r == row_of(plan.lines, l as int),
        None => true,
    } by {
        assert(board[r].line == rows[r].line);
    }
}

/// Before anything is painted every content row shows a line that is
/// referred to and stands at the row that the layout gives that line.
proof fn lemma_content_rows(
    lines: Seq<LineRecord>,
    trimmed: Seq<usize>,
    states: Seq<LineSpace>,
    gutter: int,
    upto: int,
)
    requires
        forall|i: int| 0 <= i < states.len() ==> (#[trigger] states[i]).spacing >= 0,
        0 <= upto <= states.len(),
        states.len() <= usize::MAX,
    ensures
        blank_rows(lines, trimmed, states, gutter, upto).len() == row_of(states, upto),
        forall|r: int|
            0 <= r < row_of(states, upto) ==> match (#[trigger] blank_rows(
                lines,
                trimmed,
                states,
                gutter,
                upto,
            )[r]).line {
                Some(l) => l < upto && states[l as int].referenced && r == row_of(states, l as int),
                None => true,
            },
    decreases upto,
{
    if upto > 0 {
        lemma_content_rows(lines, trimmed, states, gutter, upto - 1);
        let before = blank_rows(lines, trimmed, states, gutter, upto - 1);
        let all = blank_rows(lines, trimmed, states, gutter, upto);
        assert forall|r: int| 0 <= r < row_of(states, upto) implies match (#[trigger] all[r]).line {
            Some(l) => l < upto && states[l as int].referenced && r == row_of(states, l as int),
            None => true,
        } by {
            if r < before.len() {
                assert(all[r] == before[r]);
            }
        }
    }
}

} // verus!
