//! What the board shows of single-line annotations that do not overlap:
//! the source line, coloured under each span; below it an underline as
//! long as the span; and further down the message.

use crate::board::{lemma_plain_cells, BoardCell, Color, RowView};
use crate::classify::{LinearAnnotation, MultilineAnnotation};
use crate::compose::{
    blank_rows, bracket_pass, color_of, content_row, message_of, painted, recolor_pass, recolored,
    spacer_row, underline_drawn, underline_pass,
};
use crate::effects::{
    lemma_recolor_effect, lemma_underline_rows, lemma_with_cell, lemma_write_effect,
};
use crate::group::grouped;
use crate::layout::{
    bracket_states, layout_of, lemma_row_of_ascends, linear_states, reserve, row_of, settled,
    slots, underline_highlights, underline_plan, underline_rows, LayoutPlan, LineSpace,
    UnderlinePlan,
};
use crate::lines::LineRecord;
use crate::span::occludes;
use crate::text::blanks;
use crate::theme::{Theme, ThemeSizing};
use crate::underline::{anchor, midpoint, overlay_all, visible, visible_upto};
use std::ops::Range;
use vstd::prelude::*;

verus! {

/// Whether every annotation is on one of `n_lines` lines and its span runs
/// forwards.
pub open spec fn on_lines(linear: Seq<LinearAnnotation>, n_lines: int) -> bool {
    forall|k: int|
        0 <= k < linear.len() ==> (#[trigger] linear[k]).line < n_lines && linear[k].span.start
            <= linear[k].span.end
}

/// Whether no two annotations on the same line overlap: one ends where the
/// other starts, or before.
pub open spec fn apart(linear: Seq<LinearAnnotation>) -> bool {
    forall|i: int, j: int|
        0 <= i < j < linear.len() && (#[trigger] linear[i]).line == (#[trigger] linear[j]).line
            ==> linear[i].span.end <= linear[j].span.start || linear[j].span.end
            <= linear[i].span.start
}

/// The depth of the linear annotation at place `k`.
pub open spec fn depth_of(n_lines: int, linear: Seq<LinearAnnotation>, us: int, k: int) -> int {
    underline_plan(n_lines, linear, us, k).depth
}

/// As linear annotations reserve their rows, the rows reserved below a
/// line only increase; each annotation's depth is at least 1 and less than
/// the rows reserved below its line; and of two annotations on the same
/// line the later has the greater depth.
pub proof fn lemma_linear_states(n_lines: int, linear: Seq<LinearAnnotation>, us: int, upto: int)
    requires
        on_lines(linear, n_lines),
        0 <= n_lines,
        0 <= us,
        0 <= upto <= linear.len(),
    ensures
        linear_states(n_lines, linear, us, upto).len() == n_lines,
        forall|l: int|
            0 <= l < n_lines ==> (#[trigger] linear_states(
                n_lines,
                linear,
                us,
                upto,
            )[l]).spacing >= 0,
        forall|l: int|
            0 <= l < n_lines && upto > 0 ==> (#[trigger] linear_states(
                n_lines,
                linear,
                us,
                upto,
            )[l]).spacing >= linear_states(n_lines, linear, us, upto - 1)[l].spacing,
        forall|k: int|
            0 <= k < upto ==> {
                let state = linear_states(n_lines, linear, us, upto)[(#[trigger] linear[k]).line as int];
                &&& state.referenced
                &&& 1 <= depth_of(n_lines, linear, us, k) < state.spacing
            },
        forall|i: int, j: int|
            0 <= i < j < upto && (#[trigger] linear[i]).line == (#[trigger] linear[j]).line
                ==> depth_of(n_lines, linear, us, i) < depth_of(n_lines, linear, us, j),
    decreases upto,
{
    if upto > 0 {
        lemma_linear_states(n_lines, linear, us, upto - 1);
        let before = linear_states(n_lines, linear, us, upto - 1);
        let after = linear_states(n_lines, linear, us, upto);
        let last = upto - 1;
        let line = linear[last].line as int;
        assert(after == reserve(before, line, underline_rows(before[line], us)));
        assert forall|k: int| 0 <= k < upto implies {
            let state = after[(#[trigger] linear[k]).line as int];
            &&& state.referenced
            &&& 1 <= depth_of(n_lines, linear, us, k) < state.spacing
        } by {
            if k < last {
                let lk = linear[k].line as int;
                assert(before[lk].referenced);
                assert(after[lk].spacing >= before[lk].spacing);
            }
        }
        assert forall|i: int, j: int|
            0 <= i < j < upto && (#[trigger] linear[i]).line == (#[trigger] linear[j]).line implies depth_of(
            n_lines,
            linear,
            us,
            i,
        ) < depth_of(n_lines, linear, us, j) by {
            if j == last {
                assert(before[linear[i].line as int].referenced);
            }
        }
    }
}

/// The number of annotations on `line` among the first `upto`.
pub open spec fn count_on_line(linear: Seq<LinearAnnotation>, line: int, upto: int) -> int
    decreases upto,
{
    if upto <= 0 {
        0
    } else {
        count_on_line(linear, line, upto - 1) + if linear[upto - 1].line == line {
            1int
        } else {
            0int
        }
    }
}

/// Whether the state is that of a line with `c` linear annotations: not
/// referred to and with no row reserved where `c` is 0, else referred to
/// and with `c * (1 + underline_spacing) + 1` rows reserved.
pub open spec fn stacked(state: LineSpace, c: int, us: int) -> bool {
    &&& c >= 0
    &&& state.referenced == (c > 0)
    &&& state.spacing == if c == 0 {
        0
    } else {
        c * (1 + us) + 1
    }
}

/// Underlines on a line stack evenly: a line with `c` linear annotations
/// reserves `c * (1 + underline_spacing) + 1` rows, and the annotation
/// with `r` annotations before it on its line has the depth
/// `(r + 1) * (1 + underline_spacing)`, so each is one row and the
/// underline spacing deeper than the one before it.
pub proof fn lemma_stacking(n_lines: int, linear: Seq<LinearAnnotation>, us: int, upto: int)
    requires
        on_lines(linear, n_lines),
        0 <= n_lines,
        0 <= us,
        0 <= upto <= linear.len(),
    ensures
        forall|l: int|
            0 <= l < n_lines ==> stacked(
                #[trigger] linear_states(n_lines, linear, us, upto)[l],
                count_on_line(linear, l, upto),
                us,
            ),
        forall|k: int|
            0 <= k < upto ==> #[trigger] depth_of(n_lines, linear, us, k) == (count_on_line(
                linear,
                linear[k].line as int,
                k,
            ) + 1) * (1 + us),
    decreases upto,
{
    let after = linear_states(n_lines, linear, us, upto);
    if upto > 0 {
        lemma_stacking(n_lines, linear, us, upto - 1);
        lemma_linear_states(n_lines, linear, us, upto - 1);
        let before = linear_states(n_lines, linear, us, upto - 1);
        let last = upto - 1;
        let line = linear[last].line as int;
        let c = count_on_line(linear, line, last);
        assert(after == reserve(before, line, underline_rows(before[line], us)));
        assert(stacked(before[line], c, us));
        assert((c + 1) * (1 + us) == c * (1 + us) + (1 + us)) by (nonlinear_arith);
        assert(c * (1 + us) >= 0) by (nonlinear_arith)
            requires
                c >= 0,
                us >= 0,
        ;
        assert(1 * (1 + us) == 1 + us) by (nonlinear_arith);
        assert(count_on_line(linear, line, upto) == c + 1);
        assert(after[line].spacing == (c + 1) * (1 + us) + 1);
        assert(stacked(after[line], c + 1, us));
        assert(depth_of(n_lines, linear, us, last) == after[line].spacing - 1);
        assert forall|l: int| 0 <= l < n_lines implies stacked(
            #[trigger] after[l],
            count_on_line(linear, l, upto),
            us,
        ) by {
            if l != line {
                assert(after[l] == before[l]);
                assert(stacked(before[l], count_on_line(linear, l, upto - 1), us));
            }
        }
    } else {
        assert forall|l: int| 0 <= l < n_lines implies stacked(
            #[trigger] after[l],
            count_on_line(linear, l, upto),
            us,
        ) by {
            assert(after[l] == crate::layout::no_lines(n_lines)[l]);
        }
    }
}

/// What stays visible of an annotation that no later one on its line
/// overlaps is its whole span, and its connector attaches at the middle of
/// its span.
pub proof fn lemma_visible_whole(linear: Seq<LinearAnnotation>, k: int, upto: int)
    requires
        0 <= k < linear.len(),
        upto <= linear.len(),
        on_lines(linear, usize::MAX + 1),
        apart(linear),
    ensures
        visible_upto(linear, k, upto) == seq![linear[k].span.bounds()],
        upto == linear.len() ==> anchor(linear[k].span.bounds(), visible(linear, k)) == midpoint(
            linear[k].span.bounds(),
        ),
    decreases upto - k,
{
    let whole = seq![linear[k].span.bounds()];
    if upto > k + 1 {
        lemma_visible_whole(linear, k, upto - 1);
        let top = linear[upto - 1];
        if top.line == linear[k].line {
            assert(!occludes(top.span.bounds(), linear[k].span.bounds()));
            assert(whole.drop_last() =~= Seq::<(int, int)>::empty());
            assert(overlay_all(whole.drop_last(), top.span.bounds()) =~= Seq::<(int, int)>::empty());
            assert(overlay_all(whole, top.span.bounds()) =~= whole);
        }
    }
    if upto == linear.len() {
        let span = linear[k].span.bounds();
        let middle = midpoint(span);
        assert(visible_upto(linear, k, upto) == whole);
        if span.0 < span.1 {
            assert(whole[0].0 <= middle < whole[0].1);
        } else {
            assert(crate::underline::nearest(whole, middle, 1) == 0);
        }
    }
}

/// The layout of linear annotations alone: no gutter and no bracket, a
/// highlight and an underline command for each annotation in order, and
/// the rows that the annotations reserve.
pub proof fn lemma_linear_layout(
    n_lines: int,
    trimmed: Seq<usize>,
    linear: Seq<LinearAnnotation>,
    sizing: ThemeSizing,
)
    requires
        on_lines(linear, n_lines),
        0 <= n_lines,
    ensures
        ({
            let plan = layout_of(n_lines, trimmed, linear, Seq::empty(), sizing);
            let us = sizing.underline_spacing as int;
            let states = linear_states(n_lines, linear, us, linear.len() as int);
            &&& plan.gutter == 0
            &&& plan.brackets.len() == 0
            &&& plan.highlights == underline_highlights(linear)
            &&& plan.underlines.len() == linear.len()
            &&& plan.lines.len() == n_lines
            &&& forall|k: int|
                0 <= k < linear.len() ==> #[trigger] plan.underlines[k] == underline_plan(
                    n_lines,
                    linear,
                    us,
                    k,
                )
            &&& forall|l: int|
                0 <= l < n_lines ==> (#[trigger] plan.lines[l]).spacing >= 0 && plan.lines[l].spacing
                    >= states[l].spacing && (plan.lines[l].referenced == states[l].referenced)
        }),
{
    let none = Seq::<MultilineAnnotation>::empty();
    let plan = layout_of(n_lines, trimmed, linear, none, sizing);
    let us = sizing.underline_spacing as int;
    let states = linear_states(n_lines, linear, us, linear.len() as int);
    lemma_linear_states(n_lines, linear, us, linear.len() as int);
    assert(grouped(none).len() == 0);
    assert(slots(grouped(none)).len() == 0);
    let order = slots(grouped(none));
    assert(bracket_states(states, none, order, 0) == states);
    assert(plan.lines == settled(states));
    assert(plan.highlights =~= underline_highlights(linear));
}

/// Whether the lines, the lengths of their visible text and the linear
/// annotations fit together, and no two annotations on a line overlap.
pub open spec fn linear_report(
    lines: Seq<LineRecord>,
    trimmed: Seq<usize>,
    linear: Seq<LinearAnnotation>,
) -> bool {
    &&& lines.len() == trimmed.len()
    &&& lines.len() <= usize::MAX
    &&& forall|l: int| 0 <= l < lines.len() ==> #[trigger] trimmed[l] <= lines[l].text@.len()
    &&& on_lines(linear, lines.len() as int)
    &&& apart(linear)
}

/// Whether the row shows the source line `line` and can still grow, and
/// its first `shown` cells hold the characters of `text`.
pub open spec fn row_shows(row: RowView, line: usize, text: Seq<char>, shown: int) -> bool {
    &&& row.end_str is None
    &&& row.line == Some(line)
    &&& forall|c: int|
        0 <= c < shown ==> c < row.cells.len() && (#[trigger] row.cells[c]).ch == text[c]
}

/// Whether the row has the cells from `start` up to `end`, in the colour
/// `tint`.
pub open spec fn stretch_coloured(row: RowView, start: int, end: int, tint: Option<Color>) -> bool {
    forall|c: int| start <= c < end ==> c < row.cells.len() && (#[trigger] row.cells[c]).color == tint
}

/// Whether the row has the cells from `start` up to `end`, in the colour
/// `tint`, each with the underline or the junction, and the one in the
/// middle with the junction.
pub open spec fn stretch_underlined(
    row: RowView,
    start: int,
    end: int,
    tint: Option<Color>,
    underline: char,
    junction: char,
) -> bool {
    &&& forall|c: int|
        start <= c < end ==> {
            &&& c < row.cells.len()
            &&& (#[trigger] row.cells[c]).color == tint
            &&& row.cells[c].ch == underline || row.cells[c].ch == junction
        }
    &&& start < end ==> row.cells[start + (end - start) / 2].ch == junction
}

/// The row with an underline from `start` up to `end` and the junction at
/// `anchor`.
pub open spec fn underlined(
    row: RowView,
    start: int,
    end: int,
    anchor: int,
    color: Option<Color>,
    underline: char,
    junction: char,
) -> RowView {
    row.write(Seq::new((end - start) as nat, |i: int| underline), start, color).put_char(
        anchor,
        junction,
    )
}

proof fn lemma_recolor_keeps_text(
    row: RowView,
    line: usize,
    text: Seq<char>,
    shown: int,
    start: int,
    end: int,
    color: Option<Color>,
)
    requires
        row_shows(row, line, text, shown),
        0 <= start,
    ensures
        row_shows(row.recolor(start, end, color), line, text, shown),
{
    lemma_recolor_effect(row, start, end, color);
    let after = row.recolor(start, end, color);
    assert forall|c: int| 0 <= c < shown implies c < after.cells.len() && (
    #[trigger] after.cells[c]).ch == text[c] by {
        assert(row.cells[c].ch == text[c]);
    }
}

proof fn lemma_recolor_colours(
    row: RowView,
    s: int,
    e: int,
    tint: Option<Color>,
    start: int,
    end: int,
    color: Option<Color>,
)
    requires
        row.end_str is None,
        0 <= start,
        0 <= s,
        (start == s && end == e && color == tint) || (stretch_coloured(row, s, e, tint) && (end
            <= s || e <= start)),
    ensures
        stretch_coloured(row.recolor(start, end, color), s, e, tint),
{
    lemma_recolor_effect(row, start, end, color);
    let after = row.recolor(start, end, color);
    assert forall|c: int| s <= c < e implies c < after.cells.len() && (
    #[trigger] after.cells[c]).color == tint by {
        if !(start == s && end == e && color == tint) {
            assert(row.cells[c].color == tint);
        }
    }
}

proof fn lemma_underlined(
    row: RowView,
    s: int,
    e: int,
    tint: Option<Color>,
    start: int,
    end: int,
    anchor: int,
    color: Option<Color>,
    underline: char,
    junction: char,
    marked: bool,
)
    requires
        row.end_str is None,
        0 <= start <= end,
        start <= anchor <= end,
        0 <= s,
        marked ==> (start == s && end == e && color == tint && anchor == start + (end - start) / 2)
            || (stretch_underlined(row, s, e, tint, underline, junction) && (end <= s || e
            <= start)),
    ensures
        underlined(row, start, end, anchor, color, underline, junction).end_str is None,
        underlined(row, start, end, anchor, color, underline, junction).line == row.line,
        marked ==> stretch_underlined(
            underlined(row, start, end, anchor, color, underline, junction),
            s,
            e,
            tint,
            underline,
            junction,
        ),
{
    let run = Seq::new((end - start) as nat, |i: int| underline);
    let written = row.write(run, start, color);
    lemma_write_effect(row, run, start, color);
    let cell = BoardCell { color: written.cell(anchor).color, ch: junction };
    lemma_with_cell(written, anchor, cell);
    let after = underlined(row, start, end, anchor, color, underline, junction);
    assert(after == written.with_cell(anchor, cell));
    if marked {
        let own = start == s && end == e && color == tint && anchor == start + (end - start) / 2;
        assert forall|c: int| s <= c < e implies {
            &&& c < after.cells.len()
            &&& (#[trigger] after.cells[c]).color == tint
            &&& after.cells[c].ch == underline || after.cells[c].ch == junction
        } by {
            if !own {
                assert(row.cells[c].color == tint);
            }
            assert(c < written.cells.len());
            assert(written.cells[c].color == tint);
        }
        if s < e {
            let mid = s + (e - s) / 2;
            if !own {
                assert(row.cells[mid].color == tint);
            }
        }
    }
}

/// Drawing an underline leaves the rows above the row below its line and
/// the rows below the row of its message; it draws the underline on the
/// row below its line, sets the message on the row of its message, and
/// leaves the message of every row but that.
proof fn lemma_underline_step(
    before: Seq<RowView>,
    u: UnderlinePlan,
    plan: LayoutPlan,
    theme: Theme,
    color: Option<Color>,
    message: Seq<char>,
)
    requires
        plan.gutter == 0,
        0 <= row_of(plan.lines, u.line),
        1 <= u.depth,
        row_of(plan.lines, u.line) + 1 + u.depth < before.len(),
    ensures
        ({
            let after = underline_drawn(before, u, plan, theme, color, message);
            let top = row_of(plan.lines, u.line) + 1;
            &&& after.len() == before.len()
            &&& after[top] == underlined(
                before[top],
                u.start,
                u.end,
                u.anchor,
                color,
                theme.chars.underline,
                theme.chars.underline_junction,
            )
            &&& after[top + u.depth].end_str == Some(message)
            &&& forall|x: int|
                0 <= x < before.len() && (x < top || x > top + u.depth) ==> #[trigger] after[x]
                    == before[x]
            &&& forall|x: int|
                0 <= x < before.len() && x != top + u.depth && x != top ==> (
                #[trigger] after[x]).end_str == before[x].end_str
        }),
{
    lemma_underline_rows(before, u, plan, theme, color, message);
}

/// What the board holds for a linear annotation on the content row of its
/// line: the row is among the rows of the board, followed by the rows
/// reserved below the line; it shows the line, its cells hold the visible
/// text of the line and, where `coloured`, the cells under the span of the
/// annotation have its colour.
pub open spec fn line_shown(
    board: Seq<RowView>,
    lines: Seq<LineRecord>,
    trimmed: Seq<usize>,
    plan: LayoutPlan,
    a: LinearAnnotation,
    tint: Option<Color>,
    coloured: bool,
) -> bool {
    let r = row_of(plan.lines, a.line as int);
    &&& board.len() == row_of(plan.lines, plan.lines.len() as int)
    &&& 0 <= r
    &&& r + plan.lines[a.line as int].spacing < board.len()
    &&& row_shows(board[r], a.line, lines[a.line as int].text@, trimmed[a.line as int] as int)
    &&& coloured ==> stretch_coloured(board[r], a.span.start as int, a.span.end as int, tint)
}

/// What the board holds for a linear annotation once the underlines are
/// drawn: below the content row of its line, under its span, the underline
/// in its colour, with the junction at the middle of the span; and `depth`
/// rows below the underline its message.
pub open spec fn underline_shown(
    board: Seq<RowView>,
    plan: LayoutPlan,
    theme: Theme,
    a: LinearAnnotation,
    depth: int,
    tint: Option<Color>,
    message: Seq<char>,
) -> bool {
    let r = row_of(plan.lines, a.line as int);
    &&& stretch_underlined(
        board[r + 1],
        a.span.start as int,
        a.span.end as int,
        tint,
        theme.chars.underline,
        theme.chars.underline_junction,
    )
    &&& board[r + 1 + depth].end_str == Some(message)
}

/// The rows of two lines that are referred to do not mix: the row of one
/// is not among the row of the other and the rows reserved below it.
proof fn lemma_blocks_apart(states: Seq<LineSpace>, one: int, other: int)
    requires
        forall|i: int| 0 <= i < states.len() ==> (#[trigger] states[i]).spacing >= 0,
        0 <= one < states.len(),
        0 <= other < states.len(),
        one != other,
        states[one].referenced,
        states[other].referenced,
    ensures
        row_of(states, one) + states[one].spacing < row_of(states, other) || row_of(states, other)
            + states[other].spacing < row_of(states, one),
{
    if one < other {
        lemma_row_of_ascends(states, one, other);
    } else {
        lemma_row_of_ascends(states, other, one);
    }
}

/// The facts about the layout of linear annotations that the proofs below
/// rest on, for the annotations at the places `k` and `j`.
proof fn lemma_linear_facts(
    lines: Seq<LineRecord>,
    trimmed: Seq<usize>,
    linear: Seq<LinearAnnotation>,
    sizing: ThemeSizing,
    k: int,
    j: int,
)
    requires
        linear_report(lines, trimmed, linear),
        0 <= k < linear.len(),
        0 <= j < linear.len(),
    ensures
        ({
            let plan = layout_of(lines.len() as int, trimmed, linear, Seq::empty(), sizing);
            let a = linear[k];
            let b = linear[j];
            let u = plan.underlines[j];
            let r = row_of(plan.lines, a.line as int);
            let rj = row_of(plan.lines, b.line as int);
            &&& plan.gutter == 0
            &&& plan.brackets.len() == 0
            &&& plan.highlights.len() == linear.len()
            &&& plan.underlines.len() == linear.len()
            &&& plan.lines.len() == lines.len()
            &&& plan.highlights[j] == (crate::layout::HighlightPlan {
                id: b.id as int,
                line: b.line as int,
                start: b.span.start as int,
                end: b.span.end as int,
            })
            &&& u.id == b.id && u.line == b.line && u.start == b.span.start && u.end == b.span.end
            &&& u.anchor == b.span.start + (b.span.end - b.span.start) / 2
            &&& 1 <= u.depth < plan.lines[b.line as int].spacing
            &&& 1 <= plan.underlines[k].depth < plan.lines[a.line as int].spacing
            &&& 0 <= r && r + plan.lines[a.line as int].spacing < row_of(
                plan.lines,
                plan.lines.len() as int,
            )
            &&& 0 <= rj && rj + plan.lines[b.line as int].spacing < row_of(
                plan.lines,
                plan.lines.len() as int,
            )
            &&& a.line == b.line ==> r == rj
            &&& a.line != b.line ==> r + plan.lines[a.line as int].spacing < rj || rj
                + plan.lines[b.line as int].spacing < r
            &&& a.line == b.line && k < j ==> plan.underlines[k].depth < u.depth
            &&& a.line == b.line && j < k ==> u.depth < plan.underlines[k].depth
            &&& a.line == b.line && j != k ==> b.span.end <= a.span.start || a.span.end
                <= b.span.start
        }),
{
    let n = lines.len() as int;
    let us = sizing.underline_spacing as int;
    let plan = layout_of(n, trimmed, linear, Seq::empty(), sizing);
    let a = linear[k];
    let b = linear[j];
    lemma_linear_layout(n, trimmed, linear, sizing);
    lemma_linear_states(n, linear, us, linear.len() as int);
    lemma_visible_whole(linear, j, linear.len() as int);
    assert(plan.underlines[j] == underline_plan(n, linear, us, j));
    assert(plan.underlines[k] == underline_plan(n, linear, us, k));
    assert(plan.highlights[j] == underline_highlights(linear)[j]);
    assert(plan.lines[a.line as int].referenced);
    assert(plan.lines[b.line as int].referenced);
    lemma_row_of_ascends(plan.lines, a.line as int, n);
    lemma_row_of_ascends(plan.lines, b.line as int, n);
    if a.line != b.line {
        lemma_blocks_apart(plan.lines, a.line as int, b.line as int);
    }
    if a.line == b.line && k < j {
        assert(depth_of(n, linear, us, k) < depth_of(n, linear, us, j));
    }
    if a.line == b.line && j < k {
        assert(depth_of(n, linear, us, j) < depth_of(n, linear, us, k));
    }
}

proof fn lemma_recolor_pass_content(
    lines: Seq<LineRecord>,
    trimmed: Seq<usize>,
    linear: Seq<LinearAnnotation>,
    annotations: Seq<(Range<usize>, String, Color)>,
    sizing: ThemeSizing,
    k: int,
    t: int,
)
    requires
        linear_report(lines, trimmed, linear),
        0 <= k < linear.len(),
        0 <= t <= linear.len(),
    ensures
        ({
            let plan = layout_of(lines.len() as int, trimmed, linear, Seq::empty(), sizing);
            let rows = blank_rows(lines, trimmed, plan.lines, plan.gutter, plan.lines.len() as int);
            let board = recolor_pass(rows, plan, annotations, t);
            let r = row_of(plan.lines, linear[k].line as int);
            &&& line_shown(
                board,
                lines,
                trimmed,
                plan,
                linear[k],
                color_of(annotations, linear[k].id as int),
                t > k,
            )
            &&& forall|x: int|
                r < x <= r + plan.lines[linear[k].line as int].spacing ==> #[trigger] board[x]
                    == spacer_row()
        }),
    decreases t,
{
    let n = lines.len() as int;
    let plan = layout_of(n, trimmed, linear, Seq::empty(), sizing);
    let rows = blank_rows(lines, trimmed, plan.lines, plan.gutter, n);
    let a = linear[k];
    let line = a.line as int;
    let r = row_of(plan.lines, line);
    let tint = color_of(annotations, a.id as int);
    let text = lines[line].text@;
    let shown = trimmed[line] as int;
    if t == 0 {
        lemma_linear_facts(lines, trimmed, linear, sizing, k, k);
        lemma_linear_layout(n, trimmed, linear, sizing);
        lemma_linear_states(n, linear, sizing.underline_spacing as int, linear.len() as int);
        assert(plan.lines[line].referenced);
        crate::shape::lemma_blank_rows_shape(lines, trimmed, plan.lines, plan.gutter, n);
        let taken = text.take(shown);
        assert(rows[r] == content_row(line, taken, 0));
        lemma_plain_cells(blanks(0) + taken);
        assert(blanks(0) + taken =~= taken);
        assert(row_shows(rows[r], a.line, text, shown));
    } else {
        let j = t - 1;
        lemma_recolor_pass_content(lines, trimmed, linear, annotations, sizing, k, j);
        lemma_linear_facts(lines, trimmed, linear, sizing, k, j);
        let before = recolor_pass(rows, plan, annotations, j);
        let after = recolor_pass(rows, plan, annotations, t);
        let h = plan.highlights[j];
        let b = linear[j];
        let color = color_of(annotations, h.id);
        assert(after == recolored(before, h, plan, color));
        let rj = row_of(plan.lines, h.line);
        assert(after == crate::compose::on_row(
            before,
            rj,
            before[rj].recolor(h.start, h.end, color),
        ));
        if b.line == a.line {
            lemma_recolor_keeps_text(before[r], a.line, text, shown, h.start, h.end, color);
            if t > k {
                lemma_recolor_colours(
                    before[r],
                    a.span.start as int,
                    a.span.end as int,
                    tint,
                    h.start,
                    h.end,
                    color,
                );
            }
            assert forall|x: int| r < x <= r + plan.lines[line].spacing implies #[trigger] after[x]
                == spacer_row() by {
                assert(after[x] == before[x]);
            }
        } else {
            assert(after[r] == before[r]);
            assert forall|x: int| r < x <= r + plan.lines[line].spacing implies #[trigger] after[x]
                == spacer_row() by {
                assert(after[x] == before[x]);
            }
        }
    }
}

proof fn lemma_underline_pass_rows(
    lines: Seq<LineRecord>,
    trimmed: Seq<usize>,
    linear: Seq<LinearAnnotation>,
    annotations: Seq<(Range<usize>, String, Color)>,
    theme: Theme,
    k: int,
    t: int,
)
    requires
        linear_report(lines, trimmed, linear),
        0 <= k < linear.len(),
        0 <= t <= linear.len(),
    ensures
        ({
            let plan = layout_of(lines.len() as int, trimmed, linear, Seq::empty(), theme.sizing);
            let rows = blank_rows(lines, trimmed, plan.lines, plan.gutter, plan.lines.len() as int);
            let recolored = recolor_pass(rows, plan, annotations, linear.len() as int);
            let board = underline_pass(recolored, plan, annotations, theme, t);
            let r = row_of(plan.lines, linear[k].line as int);
            &&& board.len() == recolored.len()
            &&& board[r] == recolored[r]
            &&& board[r + 1].end_str is None
            &&& t > k ==> underline_shown(
                board,
                plan,
                theme,
                linear[k],
                plan.underlines[k].depth,
                color_of(annotations, linear[k].id as int),
                message_of(annotations, linear[k].id as int),
            )
        }),
    decreases t,
{
    let n = lines.len() as int;
    let sizing = theme.sizing;
    let plan = layout_of(n, trimmed, linear, Seq::empty(), sizing);
    let rows = blank_rows(lines, trimmed, plan.lines, plan.gutter, n);
    let recolored = recolor_pass(rows, plan, annotations, linear.len() as int);
    let a = linear[k];
    let line = a.line as int;
    let r = row_of(plan.lines, line);
    let tint = color_of(annotations, a.id as int);
    let message = message_of(annotations, a.id as int);
    let depth = plan.underlines[k].depth;
    lemma_recolor_pass_content(lines, trimmed, linear, annotations, sizing, k, linear.len() as int);
    if t == 0 {
        lemma_linear_facts(lines, trimmed, linear, sizing, k, k);
        assert(recolored[r + 1] == spacer_row());
    } else {
        let j = t - 1;
        lemma_underline_pass_rows(lines, trimmed, linear, annotations, theme, k, j);
        lemma_linear_facts(lines, trimmed, linear, sizing, k, j);
        let before = underline_pass(recolored, plan, annotations, theme, j);
        let after = underline_pass(recolored, plan, annotations, theme, t);
        let u = plan.underlines[j];
        let b = linear[j];
        let color = color_of(annotations, u.id);
        let text = message_of(annotations, u.id);
        assert(after == underline_drawn(before, u, plan, theme, color, text));
        lemma_underline_step(before, u, plan, theme, color, text);
        if b.line == a.line {
            lemma_underlined(
                before[r + 1],
                a.span.start as int,
                a.span.end as int,
                tint,
                u.start,
                u.end,
                u.anchor,
                color,
                theme.chars.underline,
                theme.chars.underline_junction,
                t > k,
            );
            assert(after[r] == before[r]);
            if t > k && j != k {
                assert(after[r + 1 + depth].end_str == before[r + 1 + depth].end_str);
            }
        } else {
            assert(after[r] == before[r]);
            assert(after[r + 1] == before[r + 1]);
            assert(after[r + 1 + depth] == before[r + 1 + depth]);
        }
    }
}

/// Of single-line annotations of which no two on a line overlap, the board
/// shows for each: the visible text of its line on the content row of the
/// line, with the cells under its span in its colour; on the row below,
/// under its span and as long as it, the underline in its colour, with the
/// junction at the middle of the span; and `depth` rows below the
/// underline, among the rows reserved below the line, its message.
pub proof fn lemma_underlines_shown(
    lines: Seq<LineRecord>,
    trimmed: Seq<usize>,
    linear: Seq<LinearAnnotation>,
    annotations: Seq<(Range<usize>, String, Color)>,
    theme: Theme,
    k: int,
)
    requires
        linear_report(lines, trimmed, linear),
        0 <= k < linear.len(),
    ensures
        ({
            let plan = layout_of(lines.len() as int, trimmed, linear, Seq::empty(), theme.sizing);
            let board = painted(lines, trimmed, plan, annotations, theme);
            let tint = color_of(annotations, linear[k].id as int);
            let depth = plan.underlines[k].depth;
            &&& plan.gutter == 0
            &&& 1 <= depth < plan.lines[linear[k].line as int].spacing
            &&& line_shown(board, lines, trimmed, plan, linear[k], tint, true)
            &&& underline_shown(
                board,
                plan,
                theme,
                linear[k],
                depth,
                tint,
                message_of(annotations, linear[k].id as int),
            )
        }),
{
    let n = lines.len() as int;
    let sizing = theme.sizing;
    let plan = layout_of(n, trimmed, linear, Seq::empty(), sizing);
    let rows = blank_rows(lines, trimmed, plan.lines, plan.gutter, n);
    let recolored = recolor_pass(rows, plan, annotations, linear.len() as int);
    lemma_linear_facts(lines, trimmed, linear, sizing, k, k);
    lemma_recolor_pass_content(lines, trimmed, linear, annotations, sizing, k, linear.len() as int);
    lemma_underline_pass_rows(lines, trimmed, linear, annotations, theme, k, linear.len() as int);
    assert(bracket_pass(recolored, plan, annotations, theme, 0) == recolored);
    let board = painted(lines, trimmed, plan, annotations, theme);
    assert(board == underline_pass(recolored, plan, annotations, theme, linear.len() as int));
}

} // verus!
