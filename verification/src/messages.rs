//! Every message has a row of its own: where the rows of the messages are
//! all different, the finished board holds each message on its row.

use crate::board::{Color, RowView};
use crate::compose::{
    arm, bracket_drawn, bracket_pass, color_of, finished, message_of, on_row, painted,
    recolor_pass, stem, underline_drawn, underline_pass, written,
};
use crate::classify::{LinearAnnotation, MultilineAnnotation};
use crate::group::{grouped, groups_sound, lemma_grouped_sound, GroupView};
use crate::law::{depth_of, lemma_linear_states, on_lines};
use crate::layout::{
    bracket_plan, bracket_states, bracket_step, group_slots, grown, layout_of,
    lemma_row_of_ascends, lemma_settled_grows, linear_states, reserve, row_of, settled, slots,
    spacing_line, underline_plan, BracketPlan, LayoutPlan, LineSpace, Slot, UnderlinePlan,
};
use crate::theme::ThemeSizing;
use crate::lines::LineRecord;
use crate::theme::Theme;
use std::ops::Range;
use vstd::prelude::*;

verus! {

impl LayoutPlan {
    /// The row that holds the message of the underline command at place
    /// `k`.
    pub open spec fn underline_message_row(self, k: int) -> int {
        row_of(self.lines, self.underlines[k].line) + 1 + self.underlines[k].depth
    }

    /// The row that holds the message of the multiline command at place
    /// `t`.
    pub open spec fn bracket_message_row(self, t: int) -> int {
        row_of(self.lines, self.brackets[t].spacing_end) + self.brackets[t].depth
    }

    /// Whether the messages are apart: the row of every message is one of
    /// the first `rows` rows, and no two messages share a row.
    pub open spec fn messages_apart(self, rows: int) -> bool {
        &&& forall|k: int|
            0 <= k < self.underlines.len() ==> 0 <= #[trigger] self.underline_message_row(k) < rows
        &&& forall|t: int|
            0 <= t < self.brackets.len() ==> 0 <= #[trigger] self.bracket_message_row(t) < rows
        &&& forall|i: int, j: int|
            0 <= i < j < self.underlines.len() ==> #[trigger] self.underline_message_row(i)
                != #[trigger] self.underline_message_row(j)
        &&& forall|i: int, j: int|
            0 <= i < j < self.brackets.len() ==> #[trigger] self.bracket_message_row(i)
                != #[trigger] self.bracket_message_row(j)
        &&& forall|k: int, t: int|
            0 <= k < self.underlines.len() && 0 <= t < self.brackets.len()
                ==> #[trigger] self.underline_message_row(k) != #[trigger] self.bracket_message_row(
                t,
            )
    }
}

/// Whether two boards have as many rows and row by row the same message.
pub open spec fn same_messages(a: Seq<RowView>, b: Seq<RowView>) -> bool {
    &&& a.len() == b.len()
    &&& forall|x: int| 0 <= x < a.len() ==> (#[trigger] a[x]).end_str == b[x].end_str
}

/// Whether `after` is `before` with the message `message` set on the row
/// `r`, but for the cells.
pub open spec fn message_set(
    before: Seq<RowView>,
    after: Seq<RowView>,
    r: int,
    message: Seq<char>,
) -> bool {
    &&& after.len() == before.len()
    &&& forall|x: int|
        0 <= x < before.len() ==> (#[trigger] after[x]).end_str == if x == r {
            Some(message)
        } else {
            before[x].end_str
        }
}

/// Writing on a row leaves its message.
pub proof fn lemma_write_keeps_message(
    row: RowView,
    text: Seq<char>,
    start: int,
    color: Option<Color>,
)
    ensures
        row.write(text, start, color).end_str == row.end_str,
    decreases text.len(),
{
    if text.len() > 0 {
        lemma_write_keeps_message(row, text.drop_last(), start, color);
    }
}

/// Recolouring a row leaves its message.
pub proof fn lemma_recolor_keeps_message(row: RowView, start: int, end: int, color: Option<Color>)
    ensures
        row.recolor(start, end, color).end_str == row.end_str,
    decreases end - start,
{
    if start < end {
        lemma_recolor_keeps_message(row, start, end - 1, color);
    }
}

/// Drawing a stem leaves every message.
pub proof fn lemma_stem_keeps_messages(
    board: Seq<RowView>,
    from: int,
    to: int,
    col: int,
    solid: char,
    dotted: char,
    color: Option<Color>,
)
    ensures
        same_messages(stem(board, from, to, col, solid, dotted, color), board),
    decreases to - from,
{
    if from < to {
        lemma_stem_keeps_messages(board, from, to - 1, col, solid, dotted, color);
    }
}

/// Writing on the board leaves every message.
pub proof fn lemma_written_keeps_messages(
    board: Seq<RowView>,
    r: int,
    text: Seq<char>,
    col: int,
    color: Option<Color>,
)
    ensures
        same_messages(written(board, r, text, col, color), board),
{
    if 0 <= r < board.len() {
        lemma_write_keeps_message(board[r], text, col, color);
    }
}

/// Applying the highlights leaves every message.
pub proof fn lemma_recolor_pass_keeps_messages(
    board: Seq<RowView>,
    plan: LayoutPlan,
    annotations: Seq<(Range<usize>, String, Color)>,
    upto: int,
)
    ensures
        same_messages(recolor_pass(board, plan, annotations, upto), board),
    decreases upto,
{
    if upto > 0 {
        lemma_recolor_pass_keeps_messages(board, plan, annotations, upto - 1);
        let before = recolor_pass(board, plan, annotations, upto - 1);
        let h = plan.highlights[upto - 1];
        let r = row_of(plan.lines, h.line);
        if 0 <= r < before.len() {
            lemma_recolor_keeps_message(
                before[r],
                h.start + plan.gutter,
                h.end + plan.gutter,
                color_of(annotations, h.id),
            );
        }
    }
}

/// Drawing a bracket sets its message on the row of its message and leaves
/// every other message.
pub proof fn lemma_bracket_sets_message(
    board: Seq<RowView>,
    b: BracketPlan,
    plan: LayoutPlan,
    theme: Theme,
    color: Option<Color>,
    message: Seq<char>,
)
    requires
        0 <= row_of(plan.lines, b.spacing_end) + b.depth < board.len(),
    ensures
        message_set(
            board,
            bracket_drawn(board, b, plan, theme, color, message),
            row_of(plan.lines, b.spacing_end) + b.depth,
            message,
        ),
{
    let chars = theme.chars;
    let start_row = row_of(plan.lines, b.start_line);
    let end_row = row_of(plan.lines, b.end_line);
    let message_row = row_of(plan.lines, b.spacing_end) + b.depth;
    let pointer = arm(
        chars.side_pointer_line,
        chars.side_pointer,
        theme.sizing.side_pointer_length as int,
    );
    let b1 = stem(
        board,
        start_row + 1,
        end_row,
        b.column,
        chars.side_vertical,
        chars.side_vertical_dotted,
        color,
    );
    lemma_stem_keeps_messages(
        board,
        start_row + 1,
        end_row,
        b.column,
        chars.side_vertical,
        chars.side_vertical_dotted,
        color,
    );
    let b2 = written(b1, start_row, seq![chars.top_curve] + pointer, b.column, color);
    lemma_written_keeps_messages(b1, start_row, seq![chars.top_curve] + pointer, b.column, color);
    let b3 = written(b2, end_row, seq![chars.side_junction] + pointer, b.column, color);
    lemma_written_keeps_messages(b2, end_row, seq![chars.side_junction] + pointer, b.column, color);
    let b4 = stem(
        b3,
        end_row + 1,
        message_row,
        b.column,
        chars.side_vertical,
        chars.side_vertical,
        color,
    );
    lemma_stem_keeps_messages(
        b3,
        end_row + 1,
        message_row,
        b.column,
        chars.side_vertical,
        chars.side_vertical,
        color,
    );
    let bottom = seq![chars.bottom_curve] + arm(
        chars.msg_line,
        chars.msg_pointer,
        theme.sizing.side_arm_length as int,
    );
    let b5 = written(b4, message_row, bottom, b.column, color);
    lemma_written_keeps_messages(b4, message_row, bottom, b.column, color);
    let after = bracket_drawn(board, b, plan, theme, color, message);
    assert(after == finished(b5, message_row, b.column + theme.sizing.side_arm_length + 1, message));
    assert forall|x: int| 0 <= x < board.len() implies (#[trigger] after[x]).end_str == if x
        == message_row {
        Some(message)
    } else {
        board[x].end_str
    } by {
        assert(b5[x].end_str == b4[x].end_str);
        assert(b4[x].end_str == b3[x].end_str);
        assert(b3[x].end_str == b2[x].end_str);
        assert(b2[x].end_str == b1[x].end_str);
        assert(b1[x].end_str == board[x].end_str);
    }
}

/// Drawing an underline sets its message on the row of its message and
/// leaves every other message.
pub proof fn lemma_underline_sets_message(
    board: Seq<RowView>,
    u: UnderlinePlan,
    plan: LayoutPlan,
    theme: Theme,
    color: Option<Color>,
    message: Seq<char>,
)
    requires
        0 <= row_of(plan.lines, u.line) + 1 + u.depth < board.len(),
    ensures
        message_set(
            board,
            underline_drawn(board, u, plan, theme, color, message),
            row_of(plan.lines, u.line) + 1 + u.depth,
            message,
        ),
{
    let chars = theme.chars;
    let row = row_of(plan.lines, u.line) + 1;
    let col = u.anchor + plan.gutter;
    let line = Seq::new((u.end - u.start) as nat, |i: int| chars.underline);
    let b1 = written(board, row, line, u.start + plan.gutter, color);
    lemma_written_keeps_messages(board, row, line, u.start + plan.gutter, color);
    let b2 = on_row(b1, row, b1[row].put_char(col, chars.underline_junction));
    let b3 = stem(
        b2,
        row + 1,
        row + u.depth,
        col,
        chars.underline_vertical,
        chars.underline_vertical,
        color,
    );
    lemma_stem_keeps_messages(
        b2,
        row + 1,
        row + u.depth,
        col,
        chars.underline_vertical,
        chars.underline_vertical,
        color,
    );
    let bottom = seq![chars.bottom_curve] + arm(
        chars.msg_line,
        chars.msg_pointer,
        theme.sizing.underline_arm_length as int,
    );
    let b4 = written(b3, row + u.depth, bottom, col, color);
    lemma_written_keeps_messages(b3, row + u.depth, bottom, col, color);
    let after = underline_drawn(board, u, plan, theme, color, message);
    assert(after == finished(b4, row + u.depth, col + theme.sizing.underline_arm_length + 1, message));
    assert forall|x: int| 0 <= x < board.len() implies (#[trigger] after[x]).end_str == if x == row
        + u.depth {
        Some(message)
    } else {
        board[x].end_str
    } by {
        assert(b4[x].end_str == b3[x].end_str);
        assert(b3[x].end_str == b2[x].end_str);
        assert(b2[x].end_str == b1[x].end_str);
        assert(b1[x].end_str == board[x].end_str);
    }
}

/// Once the first `upto` brackets are drawn, each of them has its message
/// on its row, and every row that is not the row of one of their messages
/// has the message it had.
pub proof fn lemma_bracket_pass_messages(
    board: Seq<RowView>,
    plan: LayoutPlan,
    annotations: Seq<(Range<usize>, String, Color)>,
    theme: Theme,
    upto: int,
)
    requires
        plan.messages_apart(board.len() as int),
        0 <= upto <= plan.brackets.len(),
    ensures
        bracket_pass(board, plan, annotations, theme, upto).len() == board.len(),
        forall|t: int|
            0 <= t < upto ==> bracket_pass(board, plan, annotations, theme, upto)[
                #[trigger] plan.bracket_message_row(t)].end_str == Some(
                message_of(annotations, plan.brackets[t].id),
            ),
        forall|x: int|
            0 <= x < board.len() && (forall|t: int|
                0 <= t < upto ==> #[trigger] plan.bracket_message_row(t) != x) ==> (
            #[trigger] bracket_pass(board, plan, annotations, theme, upto)[x]).end_str
                == board[x].end_str,
    decreases upto,
{
    if upto > 0 {
        let last = upto - 1;
        lemma_bracket_pass_messages(board, plan, annotations, theme, last);
        let before = bracket_pass(board, plan, annotations, theme, last);
        let after = bracket_pass(board, plan, annotations, theme, upto);
        let b = plan.brackets[last];
        let row = plan.bracket_message_row(last);
        lemma_bracket_sets_message(
            before,
            b,
            plan,
            theme,
            color_of(annotations, b.id),
            message_of(annotations, b.id),
        );
        assert forall|t: int| 0 <= t < upto implies after[
            #[trigger] plan.bracket_message_row(t)].end_str == Some(
            message_of(annotations, plan.brackets[t].id),
        ) by {
            if t < last {
                assert(plan.bracket_message_row(t) != plan.bracket_message_row(last));
            }
        }
        assert forall|x: int|
            0 <= x < board.len() && (forall|t: int|
                0 <= t < upto ==> #[trigger] plan.bracket_message_row(t) != x) implies (
        #[trigger] after[x]).end_str == board[x].end_str by {
            assert(plan.bracket_message_row(last) != x);
            assert forall|t: int| 0 <= t < last implies #[trigger] plan.bracket_message_row(t)
                != x by {}
        }
    }
}

/// Once the first `upto` underlines are drawn, each of them has its
/// message on its row, and every row that is not the row of one of their
/// messages has the message it had.
pub proof fn lemma_underline_pass_messages(
    board: Seq<RowView>,
    plan: LayoutPlan,
    annotations: Seq<(Range<usize>, String, Color)>,
    theme: Theme,
    upto: int,
)
    requires
        plan.messages_apart(board.len() as int),
        0 <= upto <= plan.underlines.len(),
    ensures
        underline_pass(board, plan, annotations, theme, upto).len() == board.len(),
        forall|k: int|
            0 <= k < upto ==> underline_pass(board, plan, annotations, theme, upto)[
                #[trigger] plan.underline_message_row(k)].end_str == Some(
                message_of(annotations, plan.underlines[k].id),
            ),
        forall|x: int|
            0 <= x < board.len() && (forall|k: int|
                0 <= k < upto ==> #[trigger] plan.underline_message_row(k) != x) ==> (
            #[trigger] underline_pass(board, plan, annotations, theme, upto)[x]).end_str
                == board[x].end_str,
    decreases upto,
{
    if upto > 0 {
        let last = upto - 1;
        lemma_underline_pass_messages(board, plan, annotations, theme, last);
        let before = underline_pass(board, plan, annotations, theme, last);
        let after = underline_pass(board, plan, annotations, theme, upto);
        let u = plan.underlines[last];
        let row = plan.underline_message_row(last);
        lemma_underline_sets_message(
            before,
            u,
            plan,
            theme,
            color_of(annotations, u.id),
            message_of(annotations, u.id),
        );
        assert forall|k: int| 0 <= k < upto implies after[
            #[trigger] plan.underline_message_row(k)].end_str == Some(
            message_of(annotations, plan.underlines[k].id),
        ) by {
            if k < last {
                assert(plan.underline_message_row(k) != plan.underline_message_row(last));
            }
        }
        assert forall|x: int|
            0 <= x < board.len() && (forall|k: int|
                0 <= k < upto ==> #[trigger] plan.underline_message_row(k) != x) implies (
        #[trigger] after[x]).end_str == board[x].end_str by {
            assert(plan.underline_message_row(last) != x);
            assert forall|k: int| 0 <= k < last implies #[trigger] plan.underline_message_row(k)
                != x by {}
        }
    }
}

/// Where the messages are apart, the finished board holds the message of
/// every annotation on the row of that message, whatever else is drawn.
pub proof fn lemma_messages_shown(
    lines: Seq<LineRecord>,
    trimmed: Seq<usize>,
    plan: LayoutPlan,
    annotations: Seq<(Range<usize>, String, Color)>,
    theme: Theme,
)
    requires
        plan.messages_apart(painted(lines, trimmed, plan, annotations, theme).len() as int),
    ensures
        forall|k: int|
            0 <= k < plan.underlines.len() ==> painted(lines, trimmed, plan, annotations, theme)[
                #[trigger] plan.underline_message_row(k)].end_str == Some(
                message_of(annotations, plan.underlines[k].id),
            ),
        forall|t: int|
            0 <= t < plan.brackets.len() ==> painted(lines, trimmed, plan, annotations, theme)[
                #[trigger] plan.bracket_message_row(t)].end_str == Some(
                message_of(annotations, plan.brackets[t].id),
            ),
{
    let rows = crate::compose::blank_rows(
        lines,
        trimmed,
        plan.lines,
        plan.gutter,
        plan.lines.len() as int,
    );
    let recolored = recolor_pass(rows, plan, annotations, plan.highlights.len() as int);
    let bracketed = bracket_pass(recolored, plan, annotations, theme, plan.brackets.len() as int);
    let board = underline_pass(bracketed, plan, annotations, theme, plan.underlines.len() as int);
    crate::shape::lemma_painted_shape(lines, trimmed, plan, annotations, theme);
    crate::shape::lemma_recolor_pass_shape(rows, plan, annotations, plan.highlights.len() as int);
    crate::shape::lemma_bracket_pass_shape(
        recolored,
        plan,
        annotations,
        theme,
        plan.brackets.len() as int,
    );
    lemma_bracket_pass_messages(recolored, plan, annotations, theme, plan.brackets.len() as int);
    lemma_underline_pass_messages(bracketed, plan, annotations, theme, plan.underlines.len() as int);
    assert forall|t: int| 0 <= t < plan.brackets.len() implies board[
        #[trigger] plan.bracket_message_row(t)].end_str == Some(
        message_of(annotations, plan.brackets[t].id),
    ) by {
        let x = plan.bracket_message_row(t);
        assert forall|k: int| 0 <= k < plan.underlines.len() implies #[trigger] plan.underline_message_row(
            k,
        ) != x by {}
    }
}

/// Whether every slot names one of the annotations, and the lines of that
/// annotation and the last line of its group are among `n_lines` lines.
pub open spec fn slots_valid(order: Seq<Slot>, multi: Seq<MultilineAnnotation>, n_lines: int) -> bool {
    forall|t: int|
        0 <= t < order.len() ==> {
            let slot = #[trigger] order[t];
            &&& 0 <= slot.member < multi.len()
            &&& 0 <= slot.last_line < n_lines
            &&& multi[slot.member].start_line <= multi[slot.member].end_line < n_lines
        }
}

/// Whether every multiline annotation starts on one of `n_lines` lines and
/// ends on the same or a later one of them.
pub open spec fn brackets_on_lines(multi: Seq<MultilineAnnotation>, n_lines: int) -> bool {
    forall|k: int|
        0 <= k < multi.len() ==> (#[trigger] multi[k]).start_line <= multi[k].end_line < n_lines
}

/// The slots of sound groups are valid.
pub proof fn lemma_slots_valid(
    groups: Seq<GroupView>,
    multi: Seq<MultilineAnnotation>,
    n_lines: int,
)
    requires
        groups_sound(groups, multi.len() as int, n_lines),
        brackets_on_lines(multi, n_lines),
    ensures
        slots_valid(slots(groups), multi, n_lines),
    decreases groups.len(),
{
    if groups.len() > 0 {
        let head = groups.drop_last();
        assert forall|g: int| 0 <= g < head.len() implies {
            &&& (#[trigger] head[g]).members.len() >= 1
            &&& head[g].last_line < n_lines
            &&& forall|s: int|
                0 <= s < head[g].members.len() ==> (#[trigger] head[g].members[s]) < multi.len()
        } by {
            assert(head[g] == groups[g]);
        }
        lemma_slots_valid(head, multi, n_lines);
        let last = groups.last();
        assert(last == groups[groups.len() - 1]);
        let order = slots(groups);
        let before = slots(head);
        assert forall|t: int| 0 <= t < order.len() implies {
            let slot = #[trigger] order[t];
            &&& 0 <= slot.member < multi.len()
            &&& 0 <= slot.last_line < n_lines
            &&& multi[slot.member].start_line <= multi[slot.member].end_line < n_lines
        } by {
            if t < before.len() {
                assert(order[t] == before[t]);
            } else {
                let s = t - before.len();
                assert(order[t] == group_slots(last)[s]);
                assert(last.members[s] < multi.len());
            }
        }
    }
}

/// The depth of the multiline annotation in the slot at place `t`.
pub open spec fn bracket_depth(
    states: Seq<LineSpace>,
    multi: Seq<MultilineAnnotation>,
    order: Seq<Slot>,
    t: int,
) -> int {
    bracket_states(states, multi, order, t + 1)[spacing_line(
        multi[order[t].member],
        order[t],
    )].spacing
}

/// The line below which the message of the multiline annotation in the
/// slot at place `t` stands.
pub open spec fn message_line(multi: Seq<MultilineAnnotation>, order: Seq<Slot>, t: int) -> int {
    spacing_line(multi[order[t].member], order[t])
}

/// As multiline annotations reserve their rows, each annotation's depth is
/// at least two more than the rows that the line had reserved before and
/// no more than the rows that it has reserved after; and of two
/// annotations with their messages below the same line the later has the
/// greater depth.
pub proof fn lemma_bracket_depths(
    states: Seq<LineSpace>,
    multi: Seq<MultilineAnnotation>,
    order: Seq<Slot>,
    upto: int,
)
    requires
        slots_valid(order, multi, states.len() as int),
        0 <= upto <= order.len(),
    ensures
        grown(states, bracket_states(states, multi, order, upto)),
        forall|t: int|
            0 <= t < upto ==> {
                let line = #[trigger] message_line(multi, order, t);
                let state = bracket_states(states, multi, order, upto)[line];
                &&& 0 <= line < states.len()
                &&& state.referenced
                &&& states[line].spacing + 2 <= bracket_depth(states, multi, order, t)
                    <= state.spacing
            },
        forall|i: int, j: int|
            0 <= i < j < upto && #[trigger] message_line(multi, order, i) == #[trigger] message_line(
                multi,
                order,
                j,
            ) ==> bracket_depth(states, multi, order, i) < bracket_depth(states, multi, order, j),
    decreases upto,
{
    crate::layout::lemma_bracket_states_grow(states, multi, order, upto);
    if upto > 0 {
        let last = upto - 1;
        lemma_bracket_depths(states, multi, order, last);
        let before = bracket_states(states, multi, order, last);
        let after = bracket_states(states, multi, order, upto);
        let slot = order[last];
        let m = multi[slot.member];
        let line = message_line(multi, order, last);
        let s1 = reserve(before, m.start_line as int, 0);
        let s2 = reserve(s1, m.end_line as int, 0);
        assert(after == reserve(s2, line, 2));
        assert(grown(before, s1));
        assert(grown(s1, s2));
        assert(s2[line].spacing == before[line].spacing);
        assert(after[line].spacing == before[line].spacing + 2);
        assert(grown(before, after));
        assert forall|t: int| 0 <= t < upto implies {
            let l = #[trigger] message_line(multi, order, t);
            let state = after[l];
            &&& 0 <= l < states.len()
            &&& state.referenced
            &&& states[l].spacing + 2 <= bracket_depth(states, multi, order, t) <= state.spacing
        } by {
            if t < last {
                let l = message_line(multi, order, t);
                assert(before[l].referenced);
                assert(after[l].spacing >= before[l].spacing);
            }
        }
        assert forall|i: int, j: int|
            0 <= i < j < upto && #[trigger] message_line(multi, order, i) == #[trigger] message_line(
                multi,
                order,
                j,
            ) implies bracket_depth(states, multi, order, i) < bracket_depth(
            states,
            multi,
            order,
            j,
        ) by {
            if j == last {
                let l = message_line(multi, order, i);
                assert(bracket_depth(states, multi, order, i) <= before[l].spacing);
            }
        }
    }
}

/// A row reserved below a line that is referred to is one of the rows of
/// the board, and rows reserved below different lines are different rows.
proof fn lemma_reserved_rows(states: Seq<LineSpace>, one: int, a: int, other: int, b: int)
    requires
        forall|i: int| 0 <= i < states.len() ==> (#[trigger] states[i]).spacing >= 0,
        0 <= one < states.len(),
        0 <= other < states.len(),
        states[one].referenced,
        states[other].referenced,
        1 <= a <= states[one].spacing,
        1 <= b <= states[other].spacing,
    ensures
        0 <= row_of(states, one) + a < row_of(states, states.len() as int),
        one != other ==> row_of(states, one) + a != row_of(states, other) + b,
{
    lemma_row_of_ascends(states, one, states.len() as int);
    if one < other {
        lemma_row_of_ascends(states, one, other);
    } else if other < one {
        lemma_row_of_ascends(states, other, one);
    }
}

/// In the layout of annotations that lie on the lines, the messages are
/// apart: each has a row of its own among the rows reserved below its
/// line.
pub proof fn lemma_layout_messages_apart(
    n_lines: int,
    trimmed: Seq<usize>,
    linear: Seq<LinearAnnotation>,
    multi: Seq<MultilineAnnotation>,
    sizing: ThemeSizing,
)
    requires
        0 <= n_lines,
        on_lines(linear, n_lines),
        brackets_on_lines(multi, n_lines),
        multi.len() <= usize::MAX,
    ensures
        ({
            let plan = layout_of(n_lines, trimmed, linear, multi, sizing);
            &&& plan.lines.len() == n_lines
            &&& forall|l: int| 0 <= l < n_lines ==> (#[trigger] plan.lines[l]).spacing >= 0
            &&& plan.messages_apart(plan.rows())
        }),
{
    let plan = layout_of(n_lines, trimmed, linear, multi, sizing);
    let us = sizing.underline_spacing as int;
    let after_linear = linear_states(n_lines, linear, us, linear.len() as int);
    let groups = grouped(multi);
    let order = slots(groups);
    let after_brackets = bracket_states(after_linear, multi, order, order.len() as int);
    let states = plan.lines;
    lemma_linear_states(n_lines, linear, us, linear.len() as int);
    lemma_grouped_sound(multi, n_lines);
    lemma_slots_valid(groups, multi, n_lines);
    lemma_bracket_depths(after_linear, multi, order, order.len() as int);
    lemma_settled_grows(after_brackets);
    assert(states == settled(after_brackets));
    assert(grown(after_linear, after_brackets));
    assert(grown(after_brackets, states));
    assert forall|l: int| 0 <= l < n_lines implies (#[trigger] states[l]).spacing >= 0 by {
        assert(after_brackets[l].spacing >= after_linear[l].spacing);
    }
    // the line and the offset of each message
    assert forall|k: int| 0 <= k < plan.underlines.len() implies {
        let u = #[trigger] plan.underlines[k];
        &&& 0 <= u.line < n_lines
        &&& states[u.line].referenced
        &&& 1 <= u.depth
        &&& 1 + u.depth <= after_linear[u.line].spacing
        &&& after_linear[u.line].spacing <= states[u.line].spacing
    } by {
        assert(plan.underlines[k] == underline_plan(n_lines, linear, us, k));
        let line = linear[k].line as int;
        assert(after_linear[line].referenced);
        assert(1 <= depth_of(n_lines, linear, us, k) < after_linear[line].spacing);
        assert(after_brackets[line].spacing >= after_linear[line].spacing);
        assert(after_brackets[line].referenced);
    }
    assert forall|t: int| 0 <= t < plan.brackets.len() implies {
        let b = #[trigger] plan.brackets[t];
        &&& b.spacing_end == message_line(multi, order, t)
        &&& b.depth == bracket_depth(after_linear, multi, order, t)
        &&& 0 <= b.spacing_end < n_lines
        &&& states[b.spacing_end].referenced
        &&& after_linear[b.spacing_end].spacing + 2 <= b.depth <= states[b.spacing_end].spacing
    } by {
        assert(plan.brackets[t] == bracket_plan(
            after_linear,
            multi,
            order,
            plan.gutter,
            sizing.side_pointer_length as int,
            t,
        ));
        let line = message_line(multi, order, t);
        assert(after_brackets[line].referenced);
        assert(states[line].spacing >= after_brackets[line].spacing);
    }
    let rows = plan.rows();
    assert forall|k: int| 0 <= k < plan.underlines.len() implies 0
        <= #[trigger] plan.underline_message_row(k) < rows by {
        let u = plan.underlines[k];
        lemma_reserved_rows(states, u.line, 1 + u.depth, u.line, 1 + u.depth);
    }
    assert forall|t: int| 0 <= t < plan.brackets.len() implies 0
        <= #[trigger] plan.bracket_message_row(t) < rows by {
        let b = plan.brackets[t];
        lemma_reserved_rows(states, b.spacing_end, b.depth, b.spacing_end, b.depth);
    }
    assert forall|i: int, j: int| 0 <= i < j < plan.underlines.len() implies #[trigger] plan.underline_message_row(
        i,
    ) != #[trigger] plan.underline_message_row(j) by {
        let a = plan.underlines[i];
        let b = plan.underlines[j];
        lemma_reserved_rows(states, a.line, 1 + a.depth, b.line, 1 + b.depth);
        assert(a == underline_plan(n_lines, linear, us, i));
        assert(b == underline_plan(n_lines, linear, us, j));
        if a.line == b.line {
            assert(linear[i].line == linear[j].line);
            assert(depth_of(n_lines, linear, us, i) < depth_of(n_lines, linear, us, j));
        }
    }
    assert forall|i: int, j: int| 0 <= i < j < plan.brackets.len() implies #[trigger] plan.bracket_message_row(
        i,
    ) != #[trigger] plan.bracket_message_row(j) by {
        let a = plan.brackets[i];
        let b = plan.brackets[j];
        lemma_reserved_rows(states, a.spacing_end, a.depth, b.spacing_end, b.depth);
        if a.spacing_end == b.spacing_end {
            assert(message_line(multi, order, i) == message_line(multi, order, j));
        }
    }
    assert forall|k: int, t: int|
        0 <= k < plan.underlines.len() && 0 <= t < plan.brackets.len() implies #[trigger] plan.underline_message_row(
        k,
    ) != #[trigger] plan.bracket_message_row(t) by {
        let u = plan.underlines[k];
        let b = plan.brackets[t];
        lemma_reserved_rows(states, u.line, 1 + u.depth, b.spacing_end, b.depth);
    }
}

/// The finished board of annotations that lie on the lines holds the
/// message of every annotation, each on a row of its own: that of a linear
/// annotation `depth` rows below its underline, that of a multiline
/// annotation `depth` rows below the last line of its group.
pub proof fn lemma_every_message_shown(
    lines: Seq<LineRecord>,
    trimmed: Seq<usize>,
    linear: Seq<LinearAnnotation>,
    multi: Seq<MultilineAnnotation>,
    annotations: Seq<(Range<usize>, String, Color)>,
    theme: Theme,
)
    requires
        lines.len() <= usize::MAX,
        on_lines(linear, lines.len() as int),
        brackets_on_lines(multi, lines.len() as int),
        multi.len() <= usize::MAX,
    ensures
        ({
            let plan = layout_of(lines.len() as int, trimmed, linear, multi, theme.sizing);
            let board = painted(lines, trimmed, plan, annotations, theme);
            &&& plan.messages_apart(board.len() as int)
            &&& forall|k: int|
                0 <= k < plan.underlines.len() ==> board[
                    #[trigger] plan.underline_message_row(k)].end_str == Some(
                    message_of(annotations, plan.underlines[k].id),
                )
            &&& forall|t: int|
                0 <= t < plan.brackets.len() ==> board[
                    #[trigger] plan.bracket_message_row(t)].end_str == Some(
                    message_of(annotations, plan.brackets[t].id),
                )
        }),
{
    let plan = layout_of(lines.len() as int, trimmed, linear, multi, theme.sizing);
    lemma_layout_messages_apart(lines.len() as int, trimmed, linear, multi, theme.sizing);
    crate::shape::lemma_board_rows(lines, trimmed, plan, annotations, theme);
    lemma_messages_shown(lines, trimmed, plan, annotations, theme);
}

/// Every member of every group has a slot.
pub proof fn lemma_member_has_slot(groups: Seq<GroupView>, g: int, s: int)
    requires
        0 <= g < groups.len(),
        0 <= s < groups[g].members.len(),
    ensures
        exists|t: int|
            0 <= t < slots(groups).len() && (#[trigger] slots(groups)[t]).member
                == groups[g].members[s],
    decreases groups.len(),
{
    let order = slots(groups);
    let head = groups.drop_last();
    let before = slots(head);
    if g == groups.len() - 1 {
        let t = before.len() + s;
        assert(order[t] == group_slots(groups.last())[s]);
        assert(order[t].member == groups[g].members[s]);
    } else {
        assert(head[g] == groups[g]);
        lemma_member_has_slot(head, g, s);
        let t = choose|t: int|
            0 <= t < before.len() && (#[trigger] before[t]).member == head[g].members[s];
        assert(order[t] == before[t]);
    }
}

/// Every annotation is classified: it is among the linear annotations or
/// among the multiline ones, under its place as its `id`.
pub proof fn lemma_classified(
    lines: Seq<LineRecord>,
    spans: Seq<crate::span::CharSpan>,
    i: int,
)
    requires
        0 <= i < spans.len() <= usize::MAX,
    ensures
        (exists|k: int|
            0 <= k < crate::classify::linear_part(lines, spans).len() && (
            #[trigger] crate::classify::linear_part(lines, spans)[k]).id == i) || (exists|k: int|
            0 <= k < crate::classify::multiline_part(lines, spans).len() && (
            #[trigger] crate::classify::multiline_part(lines, spans)[k]).id == i),
    decreases spans.len(),
{
    let linear = crate::classify::linear_part(lines, spans);
    let multi = crate::classify::multiline_part(lines, spans);
    let head = spans.drop_last();
    let last = spans.len() - 1;
    if i == last {
        match crate::classify::classification(lines, last as usize, spans.last()) {
            crate::classify::Classified::Linear(a) => {
                assert(linear[linear.len() - 1].id == i);
            },
            crate::classify::Classified::Multiline(m) => {
                assert(multi[multi.len() - 1].id == i);
            },
        }
    } else {
        assert(head[i] == spans[i]);
        lemma_classified(lines, head, i);
        let linear_head = crate::classify::linear_part(lines, head);
        let multi_head = crate::classify::multiline_part(lines, head);
        if exists|k: int| 0 <= k < linear_head.len() && (#[trigger] linear_head[k]).id == i {
            let k = choose|k: int| 0 <= k < linear_head.len() && (#[trigger] linear_head[k]).id == i;
            assert(linear[k] == linear_head[k]);
        } else {
            let k = choose|k: int| 0 <= k < multi_head.len() && (#[trigger] multi_head[k]).id == i;
            assert(multi[k] == multi_head[k]);
        }
    }
}

/// Whether the layout has a multiline command for the annotation `id`.
pub open spec fn has_bracket(plan: LayoutPlan, id: int) -> bool {
    exists|t: int| 0 <= t < plan.brackets.len() && (#[trigger] plan.brackets[t]).id == id
}

/// The layout has a command for every annotation that lies on the lines:
/// an underline command for every linear annotation, at its place, and a
/// multiline command for every multiline annotation.
pub proof fn lemma_commands_for_all(
    n_lines: int,
    trimmed: Seq<usize>,
    linear: Seq<LinearAnnotation>,
    multi: Seq<MultilineAnnotation>,
    sizing: ThemeSizing,
)
    requires
        multi.len() <= usize::MAX,
    ensures
        ({
            let plan = layout_of(n_lines, trimmed, linear, multi, sizing);
            &&& plan.underlines.len() == linear.len()
            &&& forall|k: int|
                0 <= k < linear.len() ==> (#[trigger] plan.underlines[k]).id == linear[k].id
            &&& forall|k: int|
                0 <= k < multi.len() ==> has_bracket(plan, (#[trigger] multi[k]).id as int)
        }),
{
    let plan = layout_of(n_lines, trimmed, linear, multi, sizing);
    let us = sizing.underline_spacing as int;
    let groups = grouped(multi);
    let order = slots(groups);
    assert forall|k: int| 0 <= k < linear.len() implies (#[trigger] plan.underlines[k]).id
        == linear[k].id by {
        assert(plan.underlines[k] == underline_plan(n_lines, linear, us, k));
    }
    assert forall|k: int| 0 <= k < multi.len() implies has_bracket(
        plan,
        (#[trigger] multi[k]).id as int,
    ) by {
        crate::group::lemma_member_of_final_group(multi, k);
        let g = crate::group::group_index(multi, k);
        let s = choose|s: int| 0 <= s < groups[g].members.len() && groups[g].members[s] == k as usize;
        lemma_member_has_slot(groups, g, s);
        let t = choose|t: int|
            0 <= t < order.len() && (#[trigger] order[t]).member == groups[g].members[s];
        assert(plan.brackets[t].id == multi[k].id);
    }
}

} // verus!
