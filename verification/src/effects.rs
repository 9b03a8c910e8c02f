//! What painting does to the rows of the board, cell by cell.

use crate::board::{blank_cell, lemma_char_is_scalar, BoardCell, Color, RowView};
use crate::compose::{arm, on_row, stem, underline_drawn, written};
use crate::layout::{row_of, LayoutPlan, UnderlinePlan};
use crate::theme::Theme;
use vstd::prelude::*;

verus! {

/// The cell `c` of the row, blank where the row does not reach it.
pub open spec fn cell_or_blank(row: RowView, c: int) -> BoardCell {
    if 0 <= c < row.cells.len() {
        row.cells[c]
    } else {
        blank_cell()
    }
}

/// Setting a cell of a row that can grow gives the row that cell and leaves
/// the others; the row grows to hold it.
pub proof fn lemma_with_cell(row: RowView, idx: int, cell: BoardCell)
    requires
        row.end_str is None,
        0 <= idx,
    ensures
        row.with_cell(idx, cell).end_str is None,
        row.with_cell(idx, cell).line == row.line,
        row.with_cell(idx, cell).cells.len() == if idx < row.cells.len() {
            row.cells.len() as int
        } else {
            idx + 1
        },
        forall|c: int|
            0 <= c < row.with_cell(idx, cell).cells.len() ==> #[trigger] row.with_cell(
                idx,
                cell,
            ).cells[c] == if c == idx {
                cell
            } else {
                cell_or_blank(row, c)
            },
        row.cell(idx) == cell_or_blank(row, idx),
{
}

/// Recolouring cells of a row that can grow gives those cells the colour
/// and leaves their characters and the other cells; the row grows to hold
/// them.
pub proof fn lemma_recolor_effect(row: RowView, start: int, end: int, color: Option<Color>)
    requires
        row.end_str is None,
        0 <= start,
    ensures
        row.recolor(start, end, color).end_str is None,
        row.recolor(start, end, color).line == row.line,
        row.recolor(start, end, color).cells.len() == if start < end && row.cells.len() < end {
            end
        } else {
            row.cells.len() as int
        },
        forall|c: int|
            0 <= c < row.recolor(start, end, color).cells.len() ==> #[trigger] row.recolor(
                start,
                end,
                color,
            ).cells[c] == if start <= c < end {
                BoardCell { color, ch: cell_or_blank(row, c).ch }
            } else {
                cell_or_blank(row, c)
            },
    decreases end - start,
{
    if start < end {
        let before = row.recolor(start, end - 1, color);
        lemma_recolor_effect(row, start, end - 1, color);
        let cell = BoardCell { color, ch: before.cell(end - 1).ch };
        lemma_with_cell(before, end - 1, cell);
    }
}

/// Writing on a row that can grow gives the cells written on the text and
/// the colour and leaves the other cells; the row grows to hold the text.
pub proof fn lemma_write_effect(row: RowView, text: Seq<char>, start: int, color: Option<Color>)
    requires
        row.end_str is None,
        0 <= start,
    ensures
        row.write(text, start, color).end_str is None,
        row.write(text, start, color).line == row.line,
        row.write(text, start, color).cells.len() == if text.len() > 0 && row.cells.len() < start
            + text.len() {
            start + text.len()
        } else {
            row.cells.len() as int
        },
        forall|c: int|
            0 <= c < row.write(text, start, color).cells.len() ==> #[trigger] row.write(
                text,
                start,
                color,
            ).cells[c] == if start <= c < start + text.len() {
                BoardCell { color, ch: text[c - start] }
            } else {
                cell_or_blank(row, c)
            },
    decreases text.len(),
{
    if text.len() > 0 {
        let head = text.drop_last();
        let before = row.write(head, start, color);
        lemma_write_effect(row, head, start, color);
        lemma_char_is_scalar(text.last());
        let cell = BoardCell { color, ch: text.last() };
        lemma_with_cell(before, start + text.len() - 1, cell);
        let after = row.write(text, start, color);
        assert forall|c: int| 0 <= c < after.cells.len() implies #[trigger] after.cells[c] == if start
            <= c < start + text.len() {
            BoardCell { color, ch: text[c - start] }
        } else {
            cell_or_blank(row, c)
        } by {
            if start <= c < start + text.len() - 1 {
                assert(head[c - start] == text[c - start]);
            }
        }
    }
}

/// Drawing a stem sets one cell on each of its rows and leaves the other
/// rows.
pub proof fn lemma_stem_effect(
    board: Seq<RowView>,
    from: int,
    to: int,
    col: int,
    solid: char,
    dotted: char,
    color: Option<Color>,
)
    requires
        0 <= from,
    ensures
        stem(board, from, to, col, solid, dotted, color).len() == board.len(),
        forall|x: int|
            0 <= x < board.len() ==> #[trigger] stem(board, from, to, col, solid, dotted, color)[x]
                == if from <= x < to {
                board[x].put(
                    col,
                    if board[x].line is None {
                        dotted
                    } else {
                        solid
                    },
                    color,
                )
            } else {
                board[x]
            },
    decreases to - from,
{
    if from < to {
        lemma_stem_effect(board, from, to - 1, col, solid, dotted, color);
    }
}

/// Drawing an underline changes four kinds of rows and no other: the row
/// below the line gets the underline and the junction; the rows between it
/// and the message row get the stem; the message row gets the curve and
/// arm, is cut behind them and gets the message.
pub proof fn lemma_underline_rows(
    board: Seq<RowView>,
    u: UnderlinePlan,
    plan: LayoutPlan,
    theme: Theme,
    color: Option<Color>,
    message: Seq<char>,
)
    requires
        0 <= row_of(plan.lines, u.line),
        1 <= u.depth,
        row_of(plan.lines, u.line) + 1 + u.depth < board.len(),
    ensures
        underline_drawn(board, u, plan, theme, color, message).len() == board.len(),
        forall|x: int|
            0 <= x < board.len() ==> #[trigger] underline_drawn(
                board,
                u,
                plan,
                theme,
                color,
                message,
            )[x] == {
                let row = row_of(plan.lines, u.line) + 1;
                let col = u.anchor + plan.gutter;
                if x == row {
                    board[x].write(
                        Seq::new((u.end - u.start) as nat, |i: int| theme.chars.underline),
                        u.start + plan.gutter,
                        color,
                    ).put_char(col, theme.chars.underline_junction)
                } else if row < x < row + u.depth {
                    board[x].put(col, theme.chars.underline_vertical, color)
                } else if x == row + u.depth {
                    board[x].write(
                        seq![theme.chars.bottom_curve] + arm(
                            theme.chars.msg_line,
                            theme.chars.msg_pointer,
                            theme.sizing.underline_arm_length as int,
                        ),
                        col,
                        color,
                    ).finish(col + theme.sizing.underline_arm_length + 1, message)
                } else {
                    board[x]
                }
            },
{
    let chars = theme.chars;
    let row = row_of(plan.lines, u.line) + 1;
    let col = u.anchor + plan.gutter;
    let b1 = written(
        board,
        row,
        Seq::new((u.end - u.start) as nat, |i: int| chars.underline),
        u.start + plan.gutter,
        color,
    );
    let b2 = on_row(b1, row, b1[row].put_char(col, chars.underline_junction));
    lemma_stem_effect(
        b2,
        row + 1,
        row + u.depth,
        col,
        chars.underline_vertical,
        chars.underline_vertical,
        color,
    );
}

} // verus!
