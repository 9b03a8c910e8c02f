//! The board compositor: builds the rows of the board from the layout and
//! paints the source text, the highlights, the brackets and the underlines
//! onto them.

use crate::board::{board_view, plain_cells, BoardCell, BoardRow, Color, RowView};
use crate::layout::{
    lemma_row_of_ascends, row_of, BracketPlan, HighlightPlan, Layout, LayoutPlan, LineSpace,
    LineState, MultilineCommand, UnderlineCommand, UnderlinePlan,
};
use crate::lines::LineRecord;
use crate::text::{blank_run, blanks, joined, max_text_len};
use crate::theme::{Theme, ThemeSizing};
use std::ops::Range;
use vstd::prelude::*;

verus! {

/// The colour of the annotation `id`.
pub open spec fn color_of(annotations: Seq<(Range<usize>, String, Color)>, id: int) -> Option<
    Color,
> {
    Some(annotations[id].2)
}

/// The message of the annotation `id`.
pub open spec fn message_of(annotations: Seq<(Range<usize>, String, Color)>, id: int) -> Seq<
    char,
> {
    annotations[id].1@
}

/// The arm that leads to a pointer: `len - 1` line characters and the
/// pointer; nothing where `len` is 0.
pub open spec fn arm(line: char, pointer: char, len: int) -> Seq<char> {
    if len <= 0 {
        Seq::empty()
    } else {
        Seq::new((len - 1) as nat, |i: int| line).push(pointer)
    }
}

/// The board with its row `r` replaced by `row`; the board itself where it
/// has no row `r`.
pub open spec fn on_row(board: Seq<RowView>, r: int, row: RowView) -> Seq<RowView> {
    if 0 <= r < board.len() {
        board.update(r, row)
    } else {
        board
    }
}

/// The board with a vertical stem in column `col` on the rows from `from`
/// up to `to`: `dotted` on spacer rows, `solid` on content rows.
pub open spec fn stem(
    board: Seq<RowView>,
    from: int,
    to: int,
    col: int,
    solid: char,
    dotted: char,
    color: Option<Color>,
) -> Seq<RowView>
    decreases to - from,
{
    if from >= to {
        board
    } else {
        let before = stem(board, from, to - 1, col, solid, dotted, color);
        let r = to - 1;
        on_row(
            before,
            r,
            before[r].put(
                col,
                if before[r].line is None {
                    dotted
                } else {
                    solid
                },
                color,
            ),
        )
    }
}

/// The content row of the source line `line`: the gutter, blank, and the
/// visible text of the line.
pub open spec fn content_row(line: int, text: Seq<char>, gutter: int) -> RowView {
    RowView {
        line: Some(line as usize),
        cells: plain_cells(blanks(gutter) + text),
        end_str: None,
    }
}

/// An empty spacer row.
pub open spec fn spacer_row() -> RowView {
    RowView { line: None, cells: Seq::empty(), end_str: None }
}

/// The rows of the first `upto` lines before anything is painted: for each
/// line that is referred to, its content row and below it as many spacer
/// rows as it reserves; nothing for the other lines.
pub open spec fn blank_rows(
    lines: Seq<LineRecord>,
    trimmed: Seq<usize>,
    states: Seq<LineSpace>,
    gutter: int,
    upto: int,
) -> Seq<RowView>
    decreases upto,
{
    if upto <= 0 {
        Seq::empty()
    } else {
        let before = blank_rows(lines, trimmed, states, gutter, upto - 1);
        let l = upto - 1;
        if states[l].referenced {
            before.push(content_row(l, lines[l].text@.take(trimmed[l] as int), gutter)) + Seq::new(
                states[l].spacing as nat,
                |i: int| spacer_row(),
            )
        } else {
            before
        }
    }
}

/// The board with the highlight applied: the cells of its stretch, on the
/// content row of its line and right of the gutter, take its colour.
pub open spec fn recolored(
    board: Seq<RowView>,
    h: HighlightPlan,
    plan: LayoutPlan,
    color: Option<Color>,
) -> Seq<RowView> {
    let r = row_of(plan.lines, h.line);
    on_row(board, r, board[r].recolor(h.start + plan.gutter, h.end + plan.gutter, color))
}

/// The board with the first `upto` highlights applied, in order.
pub open spec fn recolor_pass(
    board: Seq<RowView>,
    plan: LayoutPlan,
    annotations: Seq<(Range<usize>, String, Color)>,
    upto: int,
) -> Seq<RowView>
    decreases upto,
{
    if upto <= 0 {
        board
    } else {
        let h = plan.highlights[upto - 1];
        recolored(
            recolor_pass(board, plan, annotations, upto - 1),
            h,
            plan,
            color_of(annotations, h.id),
        )
    }
}

/// The board with the text written on its row `r` from column `col` on.
pub open spec fn written(
    board: Seq<RowView>,
    r: int,
    text: Seq<char>,
    col: int,
    color: Option<Color>,
) -> Seq<RowView> {
    on_row(board, r, board[r].write(text, col, color))
}

/// The board with its row `r` cut down to `keep` cells and the message
/// trailing it.
pub open spec fn finished(board: Seq<RowView>, r: int, keep: int, message: Seq<char>) -> Seq<
    RowView,
> {
    on_row(board, r, board[r].finish(keep, message))
}

/// The board with the bracket of a multiline annotation drawn: the stem
/// between its first and its last row, dotted on spacer rows; the top curve
/// and pointer on its first row; the junction and pointer on its last row;
/// the stem on down to the row of its message; there the bottom curve and
/// arm, and behind them the message.
pub open spec fn bracket_drawn(
    board: Seq<RowView>,
    b: BracketPlan,
    plan: LayoutPlan,
    theme: Theme,
    color: Option<Color>,
    message: Seq<char>,
) -> Seq<RowView> {
    let chars = theme.chars;
    let start_row = row_of(plan.lines, b.start_line);
    let end_row = row_of(plan.lines, b.end_line);
    let message_row = row_of(plan.lines, b.spacing_end) + b.depth;
    let pointer = arm(
        chars.side_pointer_line,
        chars.side_pointer,
        theme.sizing.side_pointer_length as int,
    );
    let b1 = stem(
        board,
        start_row + 1,
        end_row,
        b.column,
        chars.side_vertical,
        chars.side_vertical_dotted,
        color,
    );
    let b2 = written(b1, start_row, seq![chars.top_curve] + pointer, b.column, color);
    let b3 = written(b2, end_row, seq![chars.side_junction] + pointer, b.column, color);
    let b4 = stem(
        b3,
        end_row + 1,
        message_row,
        b.column,
        chars.side_vertical,
        chars.side_vertical,
        color,
    );
    let b5 = written(
        b4,
        message_row,
        seq![chars.bottom_curve] + arm(
            chars.msg_line,
            chars.msg_pointer,
            theme.sizing.side_arm_length as int,
        ),
        b.column,
        color,
    );
    finished(b5, message_row, b.column + theme.sizing.side_arm_length + 1, message)
}

/// The board with the brackets of the first `upto` multiline commands
/// drawn, in order.
pub open spec fn bracket_pass(
    board: Seq<RowView>,
    plan: LayoutPlan,
    annotations: Seq<(Range<usize>, String, Color)>,
    theme: Theme,
    upto: int,
) -> Seq<RowView>
    decreases upto,
{
    if upto <= 0 {
        board
    } else {
        let b = plan.brackets[upto - 1];
        bracket_drawn(
            bracket_pass(board, plan, annotations, theme, upto - 1),
            b,
            plan,
            theme,
            color_of(annotations, b.id),
            message_of(annotations, b.id),
        )
    }
}

/// The board with the underline of a linear annotation drawn: on the row
/// below its line the underline under its span and the junction at its
/// anchor; below the junction the stem; `depth` rows below the underline
/// the bottom curve and arm, and behind them the message.
pub open spec fn underline_drawn(
    board: Seq<RowView>,
    u: UnderlinePlan,
    plan: LayoutPlan,
    theme: Theme,
    color: Option<Color>,
    message: Seq<char>,
) -> Seq<RowView> {
    let chars = theme.chars;
    let row = row_of(plan.lines, u.line) + 1;
    let col = u.anchor + plan.gutter;
    let b1 = written(
        board,
        row,
        Seq::new((u.end - u.start) as nat, |i: int| chars.underline),
        u.start + plan.gutter,
        color,
    );
    let b2 = on_row(b1, row, b1[row].put_char(col, chars.underline_junction));
    let b3 = stem(
        b2,
        row + 1,
        row + u.depth,
        col,
        chars.underline_vertical,
        chars.underline_vertical,
        color,
    );
    let b4 = written(
        b3,
        row + u.depth,
        seq![chars.bottom_curve] + arm(
            chars.msg_line,
            chars.msg_pointer,
            theme.sizing.underline_arm_length as int,
        ),
        col,
        color,
    );
    finished(b4, row + u.depth, col + theme.sizing.underline_arm_length + 1, message)
}

/// The board with the underlines of the first `upto` underline commands
/// drawn, in order.
pub open spec fn underline_pass(
    board: Seq<RowView>,
    plan: LayoutPlan,
    annotations: Seq<(Range<usize>, String, Color)>,
    theme: Theme,
    upto: int,
) -> Seq<RowView>
    decreases upto,
{
    if upto <= 0 {
        board
    } else {
        let u = plan.underlines[upto - 1];
        underline_drawn(
            underline_pass(board, plan, annotations, theme, upto - 1),
            u,
            plan,
            theme,
            color_of(annotations, u.id),
            message_of(annotations, u.id),
        )
    }
}

/// The finished board: the rows of the lines that are referred to, with
/// the highlights applied, then the brackets drawn, then the underlines.
pub open spec fn painted(
    lines: Seq<LineRecord>,
    trimmed: Seq<usize>,
    plan: LayoutPlan,
    annotations: Seq<(Range<usize>, String, Color)>,
    theme: Theme,
) -> Seq<RowView> {
    let rows = blank_rows(lines, trimmed, plan.lines, plan.gutter, plan.lines.len() as int);
    let recolored = recolor_pass(rows, plan, annotations, plan.highlights.len() as int);
    let bracketed = bracket_pass(recolored, plan, annotations, theme, plan.brackets.len() as int);
    underline_pass(bracketed, plan, annotations, theme, plan.underlines.len() as int)
}

fn row_offsets(states: &Vec<LineState>) -> (offsets: Vec<usize>)
    requires
        row_of(crate::layout::states_view(states@), states@.len() as int) <= max_text_len(),
    ensures
        offsets@.len() == states@.len() + 1,
        forall|l: int|
            0 <= l <= states@.len() ==> #[trigger] offsets@[l] == row_of(
                crate::layout::states_view(states@),
                l,
            ),
        forall|l: int| 0 <= l <= states@.len() ==> #[trigger] offsets@[l] <= max_text_len(),
{
    let ghost view = crate::layout::states_view(states@);
    let mut offsets: Vec<usize> = Vec::new();
    offsets.push(0);
    let mut total: usize = 0;
    let mut l: usize = 0;
    while l < states.len()
        invariant
            0 <= l <= states@.len(),
            view == crate::layout::states_view(states@),
            row_of(view, states@.len() as int) <= max_text_len(),
            offsets@.len() == l + 1,
            total == row_of(view, l as int),
            forall|j: int| 0 <= j <= l ==> #[trigger] offsets@[j] == row_of(view, j),
            forall|j: int| 0 <= j <= l ==> #[trigger] offsets@[j] <= max_text_len(),
        decreases states@.len() - l,
    {
        proof {
            lemma_row_of_ascends(view, l as int, states@.len() as int);
            if l + 1 < states@.len() {
                lemma_row_of_ascends(view, l + 1, states@.len() as int);
            }
        }
        if states[l].referenced {
            total = total + states[l].spacing + 1;
        }
        offsets.push(total);
        l = l + 1;
    }
    offsets
}

pub(crate) fn run_of(ch: char, n: usize) -> (run: Vec<char>)
    ensures
        run@ == Seq::new(n as nat, |i: int| ch),
{
    let mut run: Vec<char> = Vec::new();
    let mut i: usize = 0;
    while i < n
        invariant
            0 <= i <= n,
            run@ == Seq::new(i as nat, |j: int| ch),
        decreases n - i,
    {
        run.push(ch);
        proof {
            assert(run@ =~= Seq::new((i + 1) as nat, |j: int| ch));
        }
        i = i + 1;
    }
    run
}

fn arm_text(first: char, line: char, pointer: char, len: usize) -> (text: Vec<char>)
    ensures
        text@ == seq![first] + arm(line, pointer, len as int),
        text@.len() == len + 1,
{
    let mut text: Vec<char> = Vec::new();
    text.push(first);
    if len > 0 {
        let mut i: usize = 0;
        while i < len - 1
            invariant
                0 <= i <= len - 1,
                text@ == seq![first] + Seq::new(i as nat, |j: int| line),
            decreases len - 1 - i,
        {
            text.push(line);
            proof {
                assert(text@ =~= seq![first] + Seq::new((i + 1) as nat, |j: int| line));
            }
            i = i + 1;
        }
        text.push(pointer);
        proof {
            assert(text@ =~= seq![first] + arm(line, pointer, len as int));
        }
    } else {
        proof {
            assert(text@ =~= seq![first] + arm(line, pointer, len as int));
        }
    }
    text
}

fn prefix_of(text: &Vec<char>, n: usize) -> (head: Vec<char>)
    requires
        n <= text@.len(),
    ensures
        head@ == text@.take(n as int),
{
    let mut head: Vec<char> = Vec::new();
    let mut i: usize = 0;
    while i < n
        invariant
            0 <= i <= n <= text@.len(),
            head@ == text@.take(i as int),
        decreases n - i,
    {
        head.push(text[i]);
        proof {
            assert(head@ =~= text@.take(i + 1));
        }
        i = i + 1;
    }
    head
}

fn cells_of(text: &Vec<char>) -> (cells: Vec<BoardCell>)
    ensures
        cells@ == plain_cells(text@),
{
    let mut cells: Vec<BoardCell> = Vec::new();
    let mut i: usize = 0;
    proof {
        assert(cells@ =~= plain_cells(text@.take(0)));
    }
    while i < text.len()
        invariant
            0 <= i <= text@.len(),
            cells@ == plain_cells(text@.take(i as int)),
        decreases text@.len() - i,
    {
        let cell = BoardCell { color: None, ch: text[i] };
        cells.push(cell);
        proof {
            assert(text@.take(i + 1).drop_last() =~= text@.take(i as int));
            assert(text@.take(i + 1).last() == text@[i as int]);
            assert(cells@ =~= plain_cells(text@.take(i + 1)));
        }
        i = i + 1;
    }
    proof {
        assert(text@.take(i as int) =~= text@);
    }
    cells
}

fn paint_text(
    board: &mut Vec<BoardRow>,
    r: usize,
    text: &Vec<char>,
    col: usize,
    color: Option<Color>,
)
    requires
        col + text@.len() < usize::MAX,
    ensures
        board_view(final(board)@) == written(board_view(old(board)@), r as int, text@, col as int, color),
{
    if r < board.len() {
        board[r].write_colored(text, col, color);
        proof {
            assert(board_view(board@) =~= written(
                board_view(old(board)@),
                r as int,
                text@,
                col as int,
                color,
            ));
        }
    }
}

fn paint_finish(board: &mut Vec<BoardRow>, r: usize, keep: usize, message: String)
    ensures
        board_view(final(board)@) == finished(
            board_view(old(board)@),
            r as int,
            keep as int,
            message@,
        ),
{
    if r < board.len() {
        board[r].finish(keep, message);
        proof {
            assert(board_view(board@) =~= finished(
                board_view(old(board)@),
                r as int,
                keep as int,
                message@,
            ));
        }
    }
}

fn draw_stem(
    board: &mut Vec<BoardRow>,
    from: usize,
    to: usize,
    col: usize,
    solid: char,
    dotted: char,
    color: Option<Color>,
)
    requires
        col < usize::MAX,
    ensures
        board_view(final(board)@) == stem(
            board_view(old(board)@),
            from as int,
            to as int,
            col as int,
            solid,
            dotted,
            color,
        ),
{
    let ghost init = board_view(board@);
    let mut r: usize = from;
    while r < to
        invariant
            from <= r,
            r <= to || r == from,
            col < usize::MAX,
            board_view(board@) == stem(init, from as int, r as int, col as int, solid, dotted, color),
        decreases to - r,
    {
        let ghost before = board_view(board@);
        if r < board.len() {
            let ch = if board[r].line.is_none() {
                dotted
            } else {
                solid
            };
            assert(before[r as int] == board@[r as int]@);
            board[r].write_colored_char(ch, col, color);
            proof {
                assert(board_view(board@) =~= on_row(
                    before,
                    r as int,
                    before[r as int].put(col as int, ch, color),
                ));
            }
        }
        r = r + 1;
    }
}

fn blank_board(
    lines: &Vec<LineRecord>,
    trimmed: &Vec<usize>,
    states: &Vec<LineState>,
    gutter: usize,
) -> (board: Vec<BoardRow>)
    requires
        lines@.len() == states@.len(),
        trimmed@.len() == states@.len(),
        forall|l: int|
            0 <= l < trimmed@.len() ==> #[trigger] trimmed@[l] <= lines@[l].text@.len() && gutter
                + trimmed@[l] <= max_text_len(),
        gutter <= max_text_len(),
    ensures
        board_view(board@) == blank_rows(
            lines@,
            trimmed@,
            crate::layout::states_view(states@),
            gutter as int,
            states@.len() as int,
        ),
{
    let ghost view = crate::layout::states_view(states@);
    let mut board: Vec<BoardRow> = Vec::new();
    let mut l: usize = 0;
    proof {
        assert(board_view(board@) =~= blank_rows(lines@, trimmed@, view, gutter as int, 0));
    }
    while l < states.len()
        invariant
            0 <= l <= states@.len(),
            lines@.len() == states@.len(),
            trimmed@.len() == states@.len(),
            view == crate::layout::states_view(states@),
            forall|l: int|
                0 <= l < trimmed@.len() ==> #[trigger] trimmed@[l] <= lines@[l].text@.len()
                    && gutter + trimmed@[l] <= max_text_len(),
            gutter <= max_text_len(),
            board_view(board@) == blank_rows(lines@, trimmed@, view, gutter as int, l as int),
        decreases states@.len() - l,
    {
        let ghost before = board_view(board@);
        if states[l].referenced {
            let shown = prefix_of(&lines[l].text, trimmed[l]);
            let chars = joined(blank_run(gutter), &shown);
            let cells = cells_of(&chars);
            board.push(BoardRow::content(l, cells));
            let ghost first = content_row(
                l as int,
                lines@[l as int].text@.take(trimmed@[l as int] as int),
                gutter as int,
            );
            proof {
                assert(board_view(board@) =~= before.push(first));
            }
            let spacing = states[l].spacing;
            let mut i: usize = 0;
            while i < spacing
                invariant
                    0 <= i <= spacing,
                    board_view(board@) == before.push(first) + Seq::new(
                        i as nat,
                        |j: int| spacer_row(),
                    ),
                decreases spacing - i,
            {
                let ghost rows = board_view(board@);
                board.push(BoardRow::spacer());
                proof {
                    assert(board_view(board@) =~= rows.push(spacer_row()));
                    assert(board_view(board@) =~= before.push(first) + Seq::new(
                        (i + 1) as nat,
                        |j: int| spacer_row(),
                    ));
                }
                i = i + 1;
            }
        }
        l = l + 1;
    }
    board
}

fn paint_highlight(
    board: &mut Vec<BoardRow>,
    r: usize,
    start: usize,
    end: usize,
    color: Option<Color>,
)
    ensures
        board_view(final(board)@) == on_row(
            board_view(old(board)@),
            r as int,
            board_view(old(board)@)[r as int].recolor(start as int, end as int, color),
        ),
{
    if r < board.len() {
        board[r].recolor(start, end, color);
        proof {
            assert(board_view(board@) =~= on_row(
                board_view(old(board)@),
                r as int,
                board_view(old(board)@)[r as int].recolor(start as int, end as int, color),
            ));
        }
    }
}

fn draw_bracket(
    board: &mut Vec<BoardRow>,
    command: &MultilineCommand,
    offsets: &Vec<usize>,
    theme: &Theme,
    color: Color,
    message: String,
    Ghost(plan): Ghost<LayoutPlan>,
)
    requires
        offsets@.len() == plan.lines.len() + 1,
        forall|l: int|
            0 <= l <= plan.lines.len() ==> #[trigger] offsets@[l] == row_of(plan.lines, l)
                && offsets@[l] <= max_text_len(),
        command.start_line < plan.lines.len(),
        command.end_line < plan.lines.len(),
        command.spacing_end < plan.lines.len(),
        command.column <= max_text_len(),
        command.depth <= max_text_len(),
        theme.sizing.side_pointer_length <= max_text_len(),
        theme.sizing.side_arm_length <= max_text_len(),
    ensures
        board_view(final(board)@) == bracket_drawn(
            board_view(old(board)@),
            command@,
            plan,
            *theme,
            Some(color),
            message@,
        ),
{
    let chars = theme.chars;
    let start_row = offsets[command.start_line];
    let end_row = offsets[command.end_line];
    let message_row = offsets[command.spacing_end] + command.depth;
    let column = command.column;
    let tint = Some(color);
    draw_stem(
        board,
        start_row + 1,
        end_row,
        column,
        chars.side_vertical,
        chars.side_vertical_dotted,
        tint,
    );
    let top = arm_text(
        chars.top_curve,
        chars.side_pointer_line,
        chars.side_pointer,
        theme.sizing.side_pointer_length,
    );
    paint_text(board, start_row, &top, column, tint);
    let junction = arm_text(
        chars.side_junction,
        chars.side_pointer_line,
        chars.side_pointer,
        theme.sizing.side_pointer_length,
    );
    paint_text(board, end_row, &junction, column, tint);
    draw_stem(board, end_row + 1, message_row, column, chars.side_vertical, chars.side_vertical, tint);
    let bottom = arm_text(
        chars.bottom_curve,
        chars.msg_line,
        chars.msg_pointer,
        theme.sizing.side_arm_length,
    );
    paint_text(board, message_row, &bottom, column, tint);
    paint_finish(board, message_row, column + theme.sizing.side_arm_length + 1, message);
}

fn draw_underline(
    board: &mut Vec<BoardRow>,
    command: &UnderlineCommand,
    offsets: &Vec<usize>,
    gutter: usize,
    theme: &Theme,
    color: Color,
    message: String,
    Ghost(plan): Ghost<LayoutPlan>,
)
    requires
        offsets@.len() == plan.lines.len() + 1,
        forall|l: int|
            0 <= l <= plan.lines.len() ==> #[trigger] offsets@[l] == row_of(plan.lines, l)
                && offsets@[l] <= max_text_len(),
        plan.gutter == gutter,
        gutter <= max_text_len(),
        command.line < plan.lines.len(),
        command.start <= command.end <= max_text_len(),
        command.connector_pos <= max_text_len(),
        command.depth <= max_text_len(),
        theme.sizing.underline_arm_length <= max_text_len(),
    ensures
        board_view(final(board)@) == underline_drawn(
            board_view(old(board)@),
            command@,
            plan,
            *theme,
            Some(color),
            message@,
        ),
{
    let chars = theme.chars;
    let row = offsets[command.line] + 1;
    let col = command.connector_pos + gutter;
    let tint = Some(color);
    let line = run_of(chars.underline, command.end - command.start);
    paint_text(board, row, &line, command.start + gutter, tint);
    let ghost b1 = board_view(board@);
    if row < board.len() {
        board[row].write_char(chars.underline_junction, col);
    }
    proof {
        assert(board_view(board@) =~= on_row(
            b1,
            row as int,
            b1[row as int].put_char(col as int, chars.underline_junction),
        ));
    }
    draw_stem(
        board,
        row + 1,
        row + command.depth,
        col,
        chars.underline_vertical,
        chars.underline_vertical,
        tint,
    );
    let bottom = arm_text(
        chars.bottom_curve,
        chars.msg_line,
        chars.msg_pointer,
        theme.sizing.underline_arm_length,
    );
    paint_text(board, row + command.depth, &bottom, col, tint);
    paint_finish(
        board,
        row + command.depth,
        col + theme.sizing.underline_arm_length + 1,
        message,
    );
}

/// Whether the theme's sizes that the compositor adds to columns are
/// within what the library lays out.
pub open spec fn arms_fit(sizing: ThemeSizing) -> bool {
    &&& sizing.underline_arm_length <= max_text_len()
    &&& sizing.side_arm_length <= max_text_len()
    &&& sizing.side_pointer_length <= max_text_len()
}

/// Builds the board of a report from its layout.
pub fn compose(
    lines: &Vec<LineRecord>,
    trimmed: &Vec<usize>,
    layout: &Layout,
    annotations: &Vec<(Range<usize>, String, Color)>,
    theme: &Theme,
) -> (board: Vec<BoardRow>)
    requires
        lines@.len() == layout@.lines.len(),
        trimmed@.len() == layout@.lines.len(),
        forall|l: int|
            0 <= l < trimmed@.len() ==> #[trigger] trimmed@[l] <= lines@[l].text@.len()
                && layout.gutter + trimmed@[l] <= max_text_len(),
        layout@.sound(),
        layout@.ids_below(annotations@.len() as int),
        arms_fit(theme.sizing),
    ensures
        board_view(board@) == painted(lines@, trimmed@, layout@, annotations@, *theme),
{
    let ghost plan = layout@;
    let offsets = row_offsets(&layout.lines);
    let gutter = layout.gutter;
    let mut board = blank_board(lines, trimmed, &layout.lines, gutter);
    let ghost rows = board_view(board@);
    let mut i: usize = 0;
    while i < layout.highlights.len()
        invariant
            0 <= i <= layout.highlights@.len(),
            plan == layout@,
            gutter == layout.gutter,
            plan.sound(),
            plan.ids_below(annotations@.len() as int),
            offsets@.len() == plan.lines.len() + 1,
            forall|l: int|
                0 <= l <= plan.lines.len() ==> #[trigger] offsets@[l] == row_of(plan.lines, l)
                    && offsets@[l] <= max_text_len(),
            board_view(board@) == recolor_pass(rows, plan, annotations@, i as int),
        decreases layout.highlights@.len() - i,
    {
        let h = layout.highlights[i];
        proof {
            assert(plan.highlights[i as int] == h@);
        }
        let color = annotations[h.id].2;
        paint_highlight(&mut board, offsets[h.line], h.start + gutter, h.end + gutter, Some(color));
        i = i + 1;
    }
    let ghost recolored = board_view(board@);
    let mut i: usize = 0;
    while i < layout.brackets.len()
        invariant
            0 <= i <= layout.brackets@.len(),
            plan == layout@,
            plan.sound(),
            plan.ids_below(annotations@.len() as int),
            arms_fit(theme.sizing),
            offsets@.len() == plan.lines.len() + 1,
            forall|l: int|
                0 <= l <= plan.lines.len() ==> #[trigger] offsets@[l] == row_of(plan.lines, l)
                    && offsets@[l] <= max_text_len(),
            board_view(board@) == bracket_pass(recolored, plan, annotations@, *theme, i as int),
        decreases layout.brackets@.len() - i,
    {
        let b = layout.brackets[i];
        proof {
            assert(plan.brackets[i as int] == b@);
            crate::layout::lemma_row_of_ascends(
                plan.lines,
                b.spacing_end as int,
                plan.lines.len() as int,
            );
        }
        let color = annotations[b.id].2;
        let message = annotations[b.id].1.clone();
        draw_bracket(&mut board, &b, &offsets, theme, color, message, Ghost(plan));
        i = i + 1;
    }
    let ghost bracketed = board_view(board@);
    let mut i: usize = 0;
    while i < layout.underlines.len()
        invariant
            0 <= i <= layout.underlines@.len(),
            plan == layout@,
            gutter == layout.gutter,
            plan.sound(),
            plan.ids_below(annotations@.len() as int),
            arms_fit(theme.sizing),
            offsets@.len() == plan.lines.len() + 1,
            forall|l: int|
                0 <= l <= plan.lines.len() ==> #[trigger] offsets@[l] == row_of(plan.lines, l)
                    && offsets@[l] <= max_text_len(),
            board_view(board@) == underline_pass(bracketed, plan, annotations@, *theme, i as int),
        decreases layout.underlines@.len() - i,
    {
        let u = layout.underlines[i];
        proof {
            assert(plan.underlines[i as int] == u@);
            crate::layout::lemma_row_of_ascends(plan.lines, u.line as int, plan.lines.len() as int);
        }
        let color = annotations[u.id].2;
        let message = annotations[u.id].1.clone();
        draw_underline(&mut board, &u, &offsets, gutter, theme, color, message, Ghost(plan));
        i = i + 1;
    }
    board
}

} // verus!
