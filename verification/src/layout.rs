//! The layout: the rows that each line reserves below itself, the width of
//! the gutter and the column of each bracket in it, and what is to be
//! drawn for each annotation.

use crate::classify::{LinearAnnotation, MultilineAnnotation};
use crate::group::{
    group_multiline, grouped, groups_view, largest_group, largest_group_size, GroupView,
    MultilineGroup,
};
use crate::text::max_text_len;
use crate::theme::ThemeSizing;
use crate::underline::{anchor, bounds_of, connector_anchor, lemma_visible_within, visible, visible_parts};
use vstd::prelude::*;

verus! {

/// What a line takes on the board: whether it has a row at all, and how
/// many rows are reserved below that row.
#[derive(Debug, Clone, Copy, PartialEq, Eq)]
pub struct LineState {
    pub referenced: bool,
    pub spacing: usize,
}

/// A stretch of a line that takes the colour of the annotation `id`.
#[derive(Debug, Clone, Copy, PartialEq, Eq)]
pub struct Highlight {
    pub id: usize,
    pub line: usize,
    pub start: usize,
    pub end: usize,
}

/// What is to be drawn for a linear annotation: the underline below its
/// span, the connector from `connector_pos` down `depth` rows, and its
/// message at the end of the connector.
#[derive(Debug, Clone, Copy, PartialEq, Eq)]
pub struct UnderlineCommand {
    pub id: usize,
    pub line: usize,
    pub start: usize,
    pub end: usize,
    pub depth: usize,
    pub connector_pos: usize,
}

/// What is to be drawn for a multiline annotation: the bracket in gutter
/// column `column` from its first line to its last, continued down to the
/// row `depth` rows below the line `spacing_end`, where its message stands.
#[derive(Debug, Clone, Copy, PartialEq, Eq)]
pub struct MultilineCommand {
    pub id: usize,
    pub start_line: usize,
    pub end_line: usize,
    pub spacing_end: usize,
    pub depth: usize,
    pub side_height: usize,
    pub column: usize,
}

/// The layout of a report.
#[derive(Debug, Clone, PartialEq, Eq)]
pub struct Layout {
    pub gutter: usize,
    pub lines: Vec<LineState>,
    pub highlights: Vec<Highlight>,
    pub underlines: Vec<UnderlineCommand>,
    pub brackets: Vec<MultilineCommand>,
}

/// A line's state as contracts see it.
pub struct LineSpace {
    pub referenced: bool,
    pub spacing: int,
}

/// A highlight as contracts see it.
pub struct HighlightPlan {
    pub id: int,
    pub line: int,
    pub start: int,
    pub end: int,
}

/// An underline command as contracts see it.
pub struct UnderlinePlan {
    pub id: int,
    pub line: int,
    pub start: int,
    pub end: int,
    pub depth: int,
    pub anchor: int,
}

/// A multiline command as contracts see it.
pub struct BracketPlan {
    pub id: int,
    pub start_line: int,
    pub end_line: int,
    pub spacing_end: int,
    pub depth: int,
    pub side: int,
    pub column: int,
}

/// A layout as contracts see it.
pub struct LayoutPlan {
    pub gutter: int,
    pub lines: Seq<LineSpace>,
    pub highlights: Seq<HighlightPlan>,
    pub underlines: Seq<UnderlinePlan>,
    pub brackets: Seq<BracketPlan>,
}

impl View for LineState {
    type V = LineSpace;

    open spec fn view(&self) -> LineSpace {
        LineSpace { referenced: self.referenced, spacing: self.spacing as int }
    }
}

impl View for Highlight {
    type V = HighlightPlan;

    open spec fn view(&self) -> HighlightPlan {
        HighlightPlan {
            id: self.id as int,
            line: self.line as int,
            start: self.start as int,
            end: self.end as int,
        }
    }
}

impl View for UnderlineCommand {
    type V = UnderlinePlan;

    open spec fn view(&self) -> UnderlinePlan {
        UnderlinePlan {
            id: self.id as int,
            line: self.line as int,
            start: self.start as int,
            end: self.end as int,
            depth: self.depth as int,
            anchor: self.connector_pos as int,
        }
    }
}

impl View for MultilineCommand {
    type V = BracketPlan;

    open spec fn view(&self) -> BracketPlan {
        BracketPlan {
            id: self.id as int,
            start_line: self.start_line as int,
            end_line: self.end_line as int,
            spacing_end: self.spacing_end as int,
            depth: self.depth as int,
            side: self.side_height as int,
            column: self.column as int,
        }
    }
}

impl View for Layout {
    type V = LayoutPlan;

    open spec fn view(&self) -> LayoutPlan {
        LayoutPlan {
            gutter: self.gutter as int,
            lines: states_view(self.lines@),
            highlights: highlights_view(self.highlights@),
            underlines: underlines_view(self.underlines@),
            brackets: brackets_view(self.brackets@),
        }
    }
}

/// The sum of the theme's sizes and a fixed allowance: a bound on the rows
/// and columns that one annotation adds to the board.
pub open spec fn unit(sizing: ThemeSizing) -> int {
    sizing.pre_line_number_padding + sizing.underline_spacing + sizing.underline_arm_length
        + sizing.side_arm_length + sizing.side_pointer_length + 16
}

/// A bound on the rows and on the columns of the board of a report with
/// `count` annotations on a source of `code_len` characters: two rows for
/// each line that the source can have, and a unit for each annotation and
/// one more.
pub open spec fn footprint(code_len: int, count: int, sizing: ThemeSizing) -> int {
    2 * (code_len + 1) + (count + 1) * unit(sizing)
}

/// Whether that bound is within what the library lays out.
pub open spec fn fits(code_len: int, count: int, sizing: ThemeSizing) -> bool {
    footprint(code_len, count, sizing) <= max_text_len()
}

/// The states of `n` lines that no annotation refers to.
pub open spec fn no_lines(n: int) -> Seq<LineSpace> {
    Seq::new(n as nat, |i: int| LineSpace { referenced: false, spacing: 0 })
}

/// The states once `line` is referred to and reserves `rows` more rows.
pub open spec fn reserve(states: Seq<LineSpace>, line: int, rows: int) -> Seq<LineSpace> {
    states.update(line, LineSpace { referenced: true, spacing: states[line].spacing + rows })
}

/// The rows that a linear annotation reserves on a line in this state: one
/// more for the first on the line than for the others.
pub open spec fn underline_rows(state: LineSpace, underline_spacing: int) -> int {
    (if state.spacing == 0 {
        2int
    } else {
        1int
    }) + underline_spacing
}

/// The states of the lines once the first `upto` linear annotations have
/// reserved their rows.
pub open spec fn linear_states(
    n_lines: int,
    linear: Seq<LinearAnnotation>,
    underline_spacing: int,
    upto: int,
) -> Seq<LineSpace>
    decreases upto,
{
    if upto <= 0 {
        no_lines(n_lines)
    } else {
        let before = linear_states(n_lines, linear, underline_spacing, upto - 1);
        let line = linear[upto - 1].line as int;
        reserve(before, line, underline_rows(before[line], underline_spacing))
    }
}

/// What is to be drawn for the linear annotation at place `k`. Its depth is
/// one less than the rows reserved on its line once it has reserved its
/// own.
pub open spec fn underline_plan(
    n_lines: int,
    linear: Seq<LinearAnnotation>,
    underline_spacing: int,
    k: int,
) -> UnderlinePlan {
    let a = linear[k];
    UnderlinePlan {
        id: a.id as int,
        line: a.line as int,
        start: a.span.start as int,
        end: a.span.end as int,
        depth: linear_states(n_lines, linear, underline_spacing, k + 1)[a.line as int].spacing - 1,
        anchor: anchor(a.span.bounds(), visible(linear, k)),
    }
}

/// A multiline annotation's place in the order in which brackets are laid
/// out: its place in the list of multiline annotations, its side index in
/// its group, and the last line of its group.
pub struct Slot {
    pub member: int,
    pub side: int,
    pub last_line: int,
}

/// The slots of a group, in the order of its members.
pub open spec fn group_slots(g: GroupView) -> Seq<Slot> {
    Seq::new(
        g.members.len(),
        |s: int| Slot { member: g.members[s] as int, side: s, last_line: g.last_line as int },
    )
}

/// The slots of the groups: group by group, and within a group member by
/// member.
pub open spec fn slots(groups: Seq<GroupView>) -> Seq<Slot>
    decreases groups.len(),
{
    if groups.len() == 0 {
        Seq::empty()
    } else {
        slots(groups.drop_last()) + group_slots(groups.last())
    }
}

/// The line below which the message of a multiline annotation stands: the
/// last line of its group.
pub open spec fn spacing_line(m: MultilineAnnotation, slot: Slot) -> int {
    if m.end_line > slot.last_line {
        m.end_line as int
    } else {
        slot.last_line
    }
}

/// The states once the multiline annotation in `slot` has referred to its
/// first and last line and reserved two rows below the last line of its
/// group.
pub open spec fn bracket_step(states: Seq<LineSpace>, m: MultilineAnnotation, slot: Slot) -> Seq<
    LineSpace,
> {
    reserve(reserve(reserve(states, m.start_line as int, 0), m.end_line as int, 0), spacing_line(m, slot), 2)
}

/// The states of the lines once the multiline annotations in the first
/// `upto` slots have reserved their rows, starting from `states`.
pub open spec fn bracket_states(
    states: Seq<LineSpace>,
    multi: Seq<MultilineAnnotation>,
    order: Seq<Slot>,
    upto: int,
) -> Seq<LineSpace>
    decreases upto,
{
    if upto <= 0 {
        states
    } else {
        bracket_step(
            bracket_states(states, multi, order, upto - 1),
            multi[order[upto - 1].member],
            order[upto - 1],
        )
    }
}

/// The width of the gutter: room for as many brackets side by side as the
/// largest group has members, and one blank column; nothing where there is
/// no group.
pub open spec fn gutter_width(groups: Seq<GroupView>, side_pointer_length: int) -> int {
    if groups.len() == 0 {
        0
    } else {
        largest_group(groups) * (side_pointer_length + 1) + 1
    }
}

/// The gutter column of the bracket with side index `side`.
pub open spec fn bracket_column(gutter: int, side: int, side_pointer_length: int) -> int {
    gutter - side * (side_pointer_length + 1) - 2 - side_pointer_length
}

/// What is to be drawn for the multiline annotation in the slot at place
/// `t`. Its depth is the number of rows reserved below the last line of
/// its group once it has reserved its own.
pub open spec fn bracket_plan(
    states: Seq<LineSpace>,
    multi: Seq<MultilineAnnotation>,
    order: Seq<Slot>,
    gutter: int,
    side_pointer_length: int,
    t: int,
) -> BracketPlan {
    let slot = order[t];
    let m = multi[slot.member];
    BracketPlan {
        id: m.id as int,
        start_line: m.start_line as int,
        end_line: m.end_line as int,
        spacing_end: spacing_line(m, slot),
        depth: bracket_states(states, multi, order, t + 1)[spacing_line(m, slot)].spacing,
        side: slot.side,
        column: bracket_column(gutter, slot.side, side_pointer_length),
    }
}

/// The highlights of the multiline annotations, two for the annotation in
/// each slot: on its first line from its start to the end of the line's
/// visible text, on its last line from the start of the line to its end.
pub open spec fn bracket_highlights(
    multi: Seq<MultilineAnnotation>,
    order: Seq<Slot>,
    trimmed: Seq<usize>,
) -> Seq<HighlightPlan> {
    Seq::new(
        2 * order.len(),
        |i: int|
            {
                let m = multi[order[i / 2].member];
                if i % 2 == 0 {
                    HighlightPlan {
                        id: m.id as int,
                        line: m.start_line as int,
                        start: m.pre_len as int,
                        end: trimmed[m.start_line as int] as int,
                    }
                } else {
                    HighlightPlan {
                        id: m.id as int,
                        line: m.end_line as int,
                        start: 0,
                        end: m.end_len as int,
                    }
                }
            },
    )
}

/// The highlights of the linear annotations: each its span.
pub open spec fn underline_highlights(linear: Seq<LinearAnnotation>) -> Seq<HighlightPlan> {
    Seq::new(
        linear.len(),
        |k: int|
            HighlightPlan {
                id: linear[k].id as int,
                line: linear[k].line as int,
                start: linear[k].span.start as int,
                end: linear[k].span.end as int,
            },
    )
}

/// The states of the lines at the end: a line that is referred to, has no
/// row reserved and is not followed by a line that is referred to gets one
/// row below it.
pub open spec fn settled(states: Seq<LineSpace>) -> Seq<LineSpace> {
    Seq::new(
        states.len(),
        |i: int|
            if states[i].referenced && states[i].spacing == 0 && !(i + 1 < states.len() && states[i
                + 1].referenced) {
                LineSpace { referenced: true, spacing: 1 }
            } else {
                states[i]
            },
    )
}

/// The layout of the annotations on `n_lines` lines whose visible text has
/// the lengths `trimmed`.
pub open spec fn layout_of(
    n_lines: int,
    trimmed: Seq<usize>,
    linear: Seq<LinearAnnotation>,
    multi: Seq<MultilineAnnotation>,
    sizing: ThemeSizing,
) -> LayoutPlan {
    let groups = grouped(multi);
    let order = slots(groups);
    let gutter = gutter_width(groups, sizing.side_pointer_length as int);
    let after_linear = linear_states(
        n_lines,
        linear,
        sizing.underline_spacing as int,
        linear.len() as int,
    );
    LayoutPlan {
        gutter,
        lines: settled(bracket_states(after_linear, multi, order, order.len() as int)),
        highlights: bracket_highlights(multi, order, trimmed) + underline_highlights(linear),
        underlines: Seq::new(
            linear.len(),
            |k: int| underline_plan(n_lines, linear, sizing.underline_spacing as int, k),
        ),
        brackets: Seq::new(
            order.len(),
            |t: int|
                bracket_plan(
                    after_linear,
                    multi,
                    order,
                    gutter,
                    sizing.side_pointer_length as int,
                    t,
                ),
        ),
    }
}

/// The states as contracts see them.
pub open spec fn states_view(lines: Seq<LineState>) -> Seq<LineSpace> {
    Seq::new(lines.len(), |i: int| lines[i]@)
}

/// The highlights as contracts see them.
pub open spec fn highlights_view(highlights: Seq<Highlight>) -> Seq<HighlightPlan> {
    Seq::new(highlights.len(), |i: int| highlights[i]@)
}

/// The underline commands as contracts see them.
pub open spec fn underlines_view(commands: Seq<UnderlineCommand>) -> Seq<UnderlinePlan> {
    Seq::new(commands.len(), |i: int| commands[i]@)
}

/// The multiline commands as contracts see them.
pub open spec fn brackets_view(commands: Seq<MultilineCommand>) -> Seq<BracketPlan> {
    Seq::new(commands.len(), |i: int| commands[i]@)
}

/// The number of board rows taken by the lines before `line`: for each of
/// them that is referred to, its own row and the rows reserved below it.
pub open spec fn row_of(states: Seq<LineSpace>, line: int) -> int
    decreases line,
{
    if line <= 0 {
        0
    } else {
        row_of(states, line - 1) + if states[line - 1].referenced {
            states[line - 1].spacing + 1
        } else {
            0
        }
    }
}

/// The rows reserved below the first `upto` lines, together.
pub open spec fn spacing_sum(states: Seq<LineSpace>, upto: int) -> int
    decreases upto,
{
    if upto <= 0 {
        0
    } else {
        spacing_sum(states, upto - 1) + states[upto - 1].spacing
    }
}

impl LayoutPlan {
    /// The number of rows of the board.
    pub open spec fn rows(self) -> int {
        row_of(self.lines, self.lines.len() as int)
    }

    /// Whether every command and every highlight names one of `count`
    /// annotations.
    pub open spec fn ids_below(self, count: int) -> bool {
        &&& forall|i: int|
            0 <= i < self.underlines.len() ==> 0 <= (#[trigger] self.underlines[i]).id < count
        &&& forall|i: int|
            0 <= i < self.brackets.len() ==> 0 <= (#[trigger] self.brackets[i]).id < count
        &&& forall|i: int|
            0 <= i < self.highlights.len() ==> 0 <= (#[trigger] self.highlights[i]).id < count
    }

    /// Whether the layout is sound: every number in it is within what the
    /// library lays out, every command names lines that are referred to,
    /// and the row of every message is among the rows reserved below its
    /// line.
    pub open spec fn sound(self) -> bool {
        &&& self.rows() <= max_text_len()
        &&& 0 <= self.gutter <= max_text_len()
        &&& forall|i: int| 0 <= i < self.lines.len() ==> (#[trigger] self.lines[i]).spacing >= 0
        &&& forall|i: int|
            0 <= i < self.underlines.len() ==> {
                let u = #[trigger] self.underlines[i];
                &&& 0 <= u.line < self.lines.len()
                &&& self.lines[u.line].referenced
                &&& 0 <= u.start <= u.end <= max_text_len()
                &&& u.start <= u.anchor <= u.end
                &&& 1 <= u.depth < self.lines[u.line].spacing
            }
        &&& forall|i: int|
            0 <= i < self.brackets.len() ==> {
                let b = #[trigger] self.brackets[i];
                &&& 0 <= b.start_line <= b.end_line <= b.spacing_end < self.lines.len()
                &&& self.lines[b.start_line].referenced
                &&& self.lines[b.end_line].referenced
                &&& self.lines[b.spacing_end].referenced
                &&& 0 <= b.column <= self.gutter
                &&& 2 <= b.depth <= self.lines[b.spacing_end].spacing
            }
        &&& forall|i: int|
            0 <= i < self.highlights.len() ==> {
                let h = #[trigger] self.highlights[i];
                &&& 0 <= h.line < self.lines.len()
                &&& self.lines[h.line].referenced
                &&& 0 <= h.start <= max_text_len()
                &&& 0 <= h.end <= max_text_len()
            }
    }
}

proof fn lemma_budget(count: int, k: int, a: int, u: int)
    requires
        0 <= k <= count,
        0 <= a <= u,
    ensures
        0 <= k * a <= count * u,
        (count + 1) * u == count * u + u,
        (k + 1) * a == k * a + a,
        k < count ==> (k + 1) * a <= count * u,
{
    assert(0 <= k * a <= count * u) by (nonlinear_arith)
        requires
            0 <= k <= count,
            0 <= a <= u,
    ;
    assert((count + 1) * u == count * u + u) by (nonlinear_arith);
    assert((k + 1) * a == k * a + a) by (nonlinear_arith);
    if k < count {
        assert((k + 1) * a <= count * u) by (nonlinear_arith)
            requires
                0 <= k + 1 <= count,
                0 <= a <= u,
        ;
    }
}

/// Reserving rows below one line adds them to the rows reserved together.
pub proof fn lemma_spacing_sum_reserve(states: Seq<LineSpace>, line: int, rows: int, upto: int)
    requires
        0 <= line < states.len(),
        upto <= states.len(),
    ensures
        spacing_sum(reserve(states, line, rows), upto) == spacing_sum(states, upto) + if line
            < upto {
            rows
        } else {
            0
        },
    decreases upto,
{
    if upto > 0 {
        lemma_spacing_sum_reserve(states, line, rows, upto - 1);
    }
}

/// No line has more rows reserved than all the lines together.
pub proof fn lemma_spacing_below_sum(states: Seq<LineSpace>, line: int, upto: int)
    requires
        forall|i: int| 0 <= i < states.len() ==> (#[trigger] states[i]).spacing >= 0,
        0 <= line < upto <= states.len(),
    ensures
        0 <= states[line].spacing <= spacing_sum(states, upto),
        0 <= spacing_sum(states, upto),
    decreases upto,
{
    lemma_spacing_sum_nonnegative(states, upto - 1);
    if line < upto - 1 {
        lemma_spacing_below_sum(states, line, upto - 1);
    }
}

proof fn lemma_spacing_sum_nonnegative(states: Seq<LineSpace>, upto: int)
    requires
        forall|i: int| 0 <= i < states.len() ==> (#[trigger] states[i]).spacing >= 0,
        upto <= states.len(),
    ensures
        0 <= spacing_sum(states, upto),
    decreases upto,
{
    if upto > 0 {
        lemma_spacing_sum_nonnegative(states, upto - 1);
    }
}

/// Settling the states adds at most one row for each line.
pub proof fn lemma_settled_sum(states: Seq<LineSpace>, upto: int)
    requires
        0 <= upto <= states.len(),
    ensures
        spacing_sum(settled(states), upto) <= spacing_sum(states, upto) + upto,
    decreases upto,
{
    if upto > 0 {
        lemma_settled_sum(states, upto - 1);
    }
}

/// The rows of the board before a line are no more than the lines before
/// it and the rows reserved below them.
pub proof fn lemma_row_of_bound(states: Seq<LineSpace>, line: int)
    requires
        forall|i: int| 0 <= i < states.len() ==> (#[trigger] states[i]).spacing >= 0,
        0 <= line <= states.len(),
    ensures
        0 <= row_of(states, line) <= line + spacing_sum(states, line),
    decreases line,
{
    if line > 0 {
        lemma_row_of_bound(states, line - 1);
    }
}

/// The rows of a line that is referred to, its own and those reserved
/// below it, lie before the rows of every later line.
pub proof fn lemma_row_of_ascends(states: Seq<LineSpace>, line: int, later: int)
    requires
        forall|i: int| 0 <= i < states.len() ==> (#[trigger] states[i]).spacing >= 0,
        0 <= line < later <= states.len(),
    ensures
        0 <= row_of(states, line),
        states[line].referenced ==> row_of(states, line) + states[line].spacing + 1 <= row_of(
            states,
            later,
        ),
        row_of(states, line) <= row_of(states, later),
    decreases later,
{
    lemma_row_of_bound(states, line);
    if line < later - 1 {
        lemma_row_of_ascends(states, line, later - 1);
    }
}

/// Whether no line has fewer rows reserved in `after` than in `before`, and
/// every line referred to in `before` is referred to in `after`.
pub open spec fn grown(before: Seq<LineSpace>, after: Seq<LineSpace>) -> bool {
    &&& after.len() == before.len()
    &&& forall|l: int|
        0 <= l < before.len() ==> (#[trigger] after[l]).spacing >= before[l].spacing && (
        before[l].referenced ==> after[l].referenced)
}

/// The rows reserved below a line only increase as multiline annotations
/// reserve theirs.
pub proof fn lemma_bracket_states_grow(
    states: Seq<LineSpace>,
    multi: Seq<MultilineAnnotation>,
    order: Seq<Slot>,
    upto: int,
)
    requires
        0 <= upto <= order.len(),
        forall|t: int|
            0 <= t < order.len() ==> {
                let slot = #[trigger] order[t];
                &&& 0 <= slot.member < multi.len()
                &&& 0 <= slot.last_line < states.len()
                &&& multi[slot.member].start_line < states.len()
                &&& multi[slot.member].end_line < states.len()
            },
    ensures
        grown(states, bracket_states(states, multi, order, upto)),
    decreases upto,
{
    if upto > 0 {
        lemma_bracket_states_grow(states, multi, order, upto - 1);
        let before = bracket_states(states, multi, order, upto - 1);
        let slot = order[upto - 1];
        let m = multi[slot.member];
        let s1 = reserve(before, m.start_line as int, 0);
        let s2 = reserve(s1, m.end_line as int, 0);
        let s3 = reserve(s2, spacing_line(m, slot), 2);
        assert(grown(before, s1));
        assert(grown(s1, s2));
        assert(grown(s2, s3));
        assert(bracket_states(states, multi, order, upto) == s3);
    }
}

/// Settling the states takes no row away.
pub proof fn lemma_settled_grows(states: Seq<LineSpace>)
    requires
        forall|l: int| 0 <= l < states.len() ==> (#[trigger] states[l]).spacing >= 0,
    ensures
        grown(states, settled(states)),
{
}

/// The slots of the first groups are the first slots of all the groups.
pub proof fn lemma_slots_prefix(groups: Seq<GroupView>, g: int)
    requires
        0 <= g <= groups.len(),
    ensures
        slots(groups.take(g)).len() <= slots(groups).len(),
        slots(groups.take(g)) == slots(groups).take(slots(groups.take(g)).len() as int),
        g < groups.len() ==> slots(groups.take(g + 1)) == slots(groups.take(g)) + group_slots(
            groups[g],
        ),
    decreases groups.len() - g,
{
    if g < groups.len() {
        assert(groups.take(g + 1).drop_last() =~= groups.take(g));
        assert(groups.take(g + 1).last() == groups[g]);
        lemma_slots_prefix(groups, g + 1);
        let longer = slots(groups.take(g + 1));
        let shorter = slots(groups.take(g));
        assert(shorter =~= longer.take(shorter.len() as int));
        assert(shorter =~= slots(groups).take(shorter.len() as int));
    } else {
        assert(groups.take(g) =~= groups);
        assert(slots(groups) =~= slots(groups).take(slots(groups).len() as int));
    }
}

/// There are as many slots as the groups have members.
pub proof fn lemma_slots_len(groups: Seq<GroupView>)
    ensures
        slots(groups).len() == crate::group::member_count(groups),
    decreases groups.len(),
{
    if groups.len() > 0 {
        lemma_slots_len(groups.drop_last());
    }
}

/// Whether an underline command is sound for the lines as they are: its
/// line is referred to, its connector attaches within its span, and the
/// row of its message is among the rows reserved below its line.
pub open spec fn underline_sound(u: UnderlineCommand, lines: Seq<LineState>) -> bool {
    &&& u.line < lines.len()
    &&& lines[u.line as int].referenced
    &&& u.start <= u.connector_pos <= u.end
    &&& 1 <= u.depth < lines[u.line as int].spacing
}

/// Whether a multiline command is sound for the lines as they are: its
/// lines are referred to, its column is within the gutter, the row of its
/// message is among the rows reserved below the last line of its group,
/// and it is the command of one of the annotations.
pub open spec fn bracket_sound(
    b: MultilineCommand,
    lines: Seq<LineState>,
    gutter: usize,
    multi: Seq<MultilineAnnotation>,
) -> bool {
    &&& b.start_line <= b.end_line <= b.spacing_end < lines.len()
    &&& lines[b.start_line as int].referenced
    &&& lines[b.end_line as int].referenced
    &&& lines[b.spacing_end as int].referenced
    &&& b.column <= gutter
    &&& 2 <= b.depth <= lines[b.spacing_end as int].spacing
    &&& exists|k: int| 0 <= k < multi.len() && b.id == (#[trigger] multi[k]).id
}

/// Whether the highlight of a multiline annotation is sound for the lines
/// as they are: its line is referred to, and it is the highlight of one of
/// the annotations on its first or on its last line.
pub open spec fn bracket_highlight_sound(
    h: Highlight,
    lines: Seq<LineState>,
    multi: Seq<MultilineAnnotation>,
    trimmed: Seq<usize>,
) -> bool {
    &&& h.line < lines.len()
    &&& lines[h.line as int].referenced
    &&& exists|k: int|
        0 <= k < multi.len() && h.id == multi[k].id && (h.start == (#[trigger] multi[k]).pre_len
            && h.end == trimmed[multi[k].start_line as int] || h.start == 0 && h.end
            == multi[k].end_len)
}

/// Whether no line has fewer rows reserved in `after` than in `before`, and
/// every line referred to in `before` is referred to in `after`.
pub open spec fn lines_grown(before: Seq<LineState>, after: Seq<LineState>) -> bool {
    &&& after.len() == before.len()
    &&& forall|i: int|
        0 <= i < before.len() ==> (#[trigger] before[i]).spacing <= after[i].spacing && (
        before[i].referenced ==> after[i].referenced)
}

fn fresh_states(n: usize) -> (lines: Vec<LineState>)
    ensures
        lines@.len() == n,
        states_view(lines@) == no_lines(n as int),
{
    let mut lines: Vec<LineState> = Vec::new();
    let mut i: usize = 0;
    while i < n
        invariant
            0 <= i <= n,
            lines@.len() == i,
            forall|j: int| 0 <= j < i ==> !(#[trigger] lines@[j]).referenced && lines@[j].spacing == 0,
        decreases n - i,
    {
        lines.push(LineState { referenced: false, spacing: 0 });
        i = i + 1;
    }
    proof {
        assert(states_view(lines@) =~= no_lines(n as int));
    }
    lines
}

fn lay_out_underlines(
    lines: &mut Vec<LineState>,
    linear: &Vec<LinearAnnotation>,
    underline_spacing: usize,
) -> (commands: Vec<UnderlineCommand>)
    requires
        states_view(old(lines)@) == no_lines(old(lines)@.len() as int),
        forall|k: int|
            0 <= k < linear@.len() ==> (#[trigger] linear@[k]).line < old(lines)@.len()
                && linear@[k].span.start <= linear@[k].span.end,
        linear@.len() * (underline_spacing + 2) <= max_text_len(),
    ensures
        final(lines)@.len() == old(lines)@.len(),
        states_view(final(lines)@) == linear_states(
            old(lines)@.len() as int,
            linear@,
            underline_spacing as int,
            linear@.len() as int,
        ),
        underlines_view(commands@) == Seq::new(
            linear@.len(),
            |k: int|
                underline_plan(old(lines)@.len() as int, linear@, underline_spacing as int, k),
        ),
        spacing_sum(states_view(final(lines)@), final(lines)@.len() as int) <= linear@.len() * (
        underline_spacing + 2),
        commands@.len() == linear@.len(),
        forall|k: int|
            0 <= k < commands@.len() ==> {
                let u = #[trigger] commands@[k];
                &&& underline_sound(u, final(lines)@)
                &&& u.start == linear@[k].span.start
                &&& u.end == linear@[k].span.end
                &&& u.id == linear@[k].id
            },
{
    let n = lines.len();
    let count = linear.len();
    let ghost n_lines = n as int;
    let ghost us = underline_spacing as int;
    let mut commands: Vec<UnderlineCommand> = Vec::new();
    let mut k: usize = 0;
    proof {
        lemma_budget(count as int, 0, us + 2, us + 2);
        lemma_spacing_sum_zero(n_lines, n_lines);
    }
    while k < count
        invariant
            0 <= k <= count,
            count == linear@.len(),
            lines@.len() == n,
            n_lines == n,
            us == underline_spacing,
            forall|k: int|
                0 <= k < linear@.len() ==> (#[trigger] linear@[k]).line < n && linear@[k].span.start
                    <= linear@[k].span.end,
            count * (us + 2) <= max_text_len(),
            states_view(lines@) == linear_states(n_lines, linear@, us, k as int),
            spacing_sum(states_view(lines@), n_lines) <= k * (us + 2),
            commands@.len() == k,
            forall|j: int|
                0 <= j < k ==> (#[trigger] commands@[j])@ == underline_plan(
                    n_lines,
                    linear@,
                    us,
                    j,
                ),
            forall|j: int|
                0 <= j < k ==> {
                    let u = #[trigger] commands@[j];
                    &&& underline_sound(u, lines@)
                    &&& u.start == linear@[j].span.start
                    &&& u.end == linear@[j].span.end
                    &&& u.id == linear@[j].id
                },
        decreases count - k,
    {
        let a = linear[k];
        let ghost before = states_view(lines@);
        let ghost old_lines = lines@;
        proof {
            lemma_budget(count as int, k as int, us + 2, us + 2);
            lemma_spacing_below_sum(before, a.line as int, n_lines);
            lemma_spacing_sum_reserve(
                before,
                a.line as int,
                underline_rows(before[a.line as int], us),
                n_lines,
            );
        }
        let rows: usize = if lines[a.line].spacing == 0 {
            2 + underline_spacing
        } else {
            1 + underline_spacing
        };
        let spacing: usize = lines[a.line].spacing + rows;
        lines[a.line].referenced = true;
        lines[a.line].spacing = spacing;
        proof {
            assert(states_view(lines@) =~= reserve(
                before,
                a.line as int,
                underline_rows(before[a.line as int], us),
            ));
            lemma_visible_within(linear@, k as int, count as int);
        }
        let parts = visible_parts(linear, k);
        proof {
            let b = bounds_of(parts@);
            assert forall|i: int| 0 <= i < parts@.len() implies (#[trigger] parts@[i]).start
                <= parts@[i].end by {
                assert(b[i] == parts@[i].bounds());
            }
            let middle = crate::underline::midpoint(a.span.bounds());
            if !(b.len() == 0 || crate::underline::shows(b, middle)) {
                crate::underline::lemma_nearest(b, middle, b.len() as int);
            }
        }
        let connector_pos = connector_anchor(a.span, &parts);
        commands.push(
            UnderlineCommand {
                id: a.id,
                line: a.line,
                start: a.span.start,
                end: a.span.end,
                depth: spacing - 1,
                connector_pos,
            },
        );
        proof {
            assert forall|j: int| 0 <= j < k + 1 implies underline_sound(
                #[trigger] commands@[j],
                lines@,
            ) by {
                if j < k {
                    let u = commands@[j];
                    assert(underline_sound(u, old_lines));
                    assert(old_lines[u.line as int].spacing <= lines@[u.line as int].spacing);
                }
            }
        }
        k = k + 1;
    }
    proof {
        assert(underlines_view(commands@) =~= Seq::new(
            linear@.len(),
            |k: int| underline_plan(n_lines, linear@, us, k),
        ));
    }
    commands
}

fn lay_out_brackets(
    lines: &mut Vec<LineState>,
    highlights: &mut Vec<Highlight>,
    multi: &Vec<MultilineAnnotation>,
    groups: &Vec<MultilineGroup>,
    trimmed: &Vec<usize>,
    gutter: usize,
    side_pointer_length: usize,
) -> (commands: Vec<MultilineCommand>)
    requires
        old(highlights)@.len() == 0,
        trimmed@.len() == old(lines)@.len(),
        crate::group::groups_sound(
            groups_view(groups@),
            multi@.len() as int,
            old(lines)@.len() as int,
        ),
        crate::group::member_count(groups_view(groups@)) == multi@.len(),
        forall|k: int|
            0 <= k < multi@.len() ==> (#[trigger] multi@[k]).start_line <= multi@[k].end_line
                < old(lines)@.len(),
        forall|g: int|
            0 <= g < groups@.len() ==> (#[trigger] groups@[g]).members@.len() * (side_pointer_length
                + 1) + 1 <= gutter,
        spacing_sum(states_view(old(lines)@), old(lines)@.len() as int) + 2 * multi@.len()
            <= max_text_len(),
    ensures
        final(lines)@.len() == old(lines)@.len(),
        states_view(final(lines)@) == bracket_states(
            states_view(old(lines)@),
            multi@,
            slots(groups_view(groups@)),
            slots(groups_view(groups@)).len() as int,
        ),
        brackets_view(commands@) == Seq::new(
            slots(groups_view(groups@)).len(),
            |t: int|
                bracket_plan(
                    states_view(old(lines)@),
                    multi@,
                    slots(groups_view(groups@)),
                    gutter as int,
                    side_pointer_length as int,
                    t,
                ),
        ),
        highlights_view(final(highlights)@) == bracket_highlights(
            multi@,
            slots(groups_view(groups@)),
            trimmed@,
        ),
        spacing_sum(states_view(final(lines)@), final(lines)@.len() as int) <= spacing_sum(
            states_view(old(lines)@),
            old(lines)@.len() as int,
        ) + 2 * multi@.len(),
        lines_grown(old(lines)@, final(lines)@),
        forall|t: int|
            0 <= t < commands@.len() ==> bracket_sound(
                #[trigger] commands@[t],
                final(lines)@,
                gutter,
                multi@,
            ),
        forall|i: int|
            0 <= i < final(highlights)@.len() ==> bracket_highlight_sound(
                #[trigger] final(highlights)@[i],
                final(lines)@,
                multi@,
                trimmed@,
            ),
{
    let n = lines.len();
    let ghost n_lines = n as int;
    let ghost spl = side_pointer_length as int;
    let ghost init = states_view(lines@);
    let ghost init_lines = lines@;
    let ghost gv = groups_view(groups@);
    let ghost order = slots(gv);
    let ghost sum0 = spacing_sum(init, n_lines);
    let mut commands: Vec<MultilineCommand> = Vec::new();
    let mut g: usize = 0;
    proof {
        lemma_slots_len(gv);
        assert(gv.take(0) =~= Seq::<GroupView>::empty());
    }
    while g < groups.len()
        invariant
            0 <= g <= groups@.len(),
            lines@.len() == n,
            n_lines == n,
            spl == side_pointer_length,
            trimmed@.len() == n,
            gv == groups_view(groups@),
            order == slots(gv),
            order.len() == multi@.len(),
            init == states_view(init_lines),
            init_lines.len() == n,
            sum0 == spacing_sum(init, n_lines),
            sum0 + 2 * multi@.len() <= max_text_len(),
            crate::group::groups_sound(gv, multi@.len() as int, n_lines),
            forall|k: int|
                0 <= k < multi@.len() ==> (#[trigger] multi@[k]).start_line <= multi@[k].end_line
                    < n,
            forall|g: int|
                0 <= g < groups@.len() ==> (#[trigger] groups@[g]).members@.len() * (spl + 1) + 1
                    <= gutter,
            commands@.len() == slots(gv.take(g as int)).len(),
            commands@.len() <= order.len(),
            highlights@.len() == 2 * commands@.len(),
            states_view(lines@) == bracket_states(init, multi@, order, commands@.len() as int),
            spacing_sum(states_view(lines@), n_lines) <= sum0 + 2 * commands@.len(),
            forall|t: int|
                0 <= t < commands@.len() ==> (#[trigger] commands@[t])@ == bracket_plan(
                    init,
                    multi@,
                    order,
                    gutter as int,
                    spl,
                    t,
                ),
            forall|i: int|
                0 <= i < highlights@.len() ==> (#[trigger] highlights@[i])@ == bracket_highlights(
                    multi@,
                    order,
                    trimmed@,
                )[i],
            lines_grown(init_lines, lines@),
            forall|t: int|
                0 <= t < commands@.len() ==> bracket_sound(
                    #[trigger] commands@[t],
                    lines@,
                    gutter,
                    multi@,
                ),
            forall|i: int|
                0 <= i < highlights@.len() ==> bracket_highlight_sound(
                    #[trigger] highlights@[i],
                    lines@,
                    multi@,
                    trimmed@,
                ),
        decreases groups@.len() - g,
    {
        let ghost base = commands@.len() as int;
        let ghost group = gv[g as int];
        proof {
            lemma_slots_prefix(gv, g as int);
            lemma_slots_prefix(gv, g + 1);
            assert(group == groups@[g as int]@);
            assert(group.members.len() >= 1);
            assert forall|s: int| 0 <= s < group.members.len() implies order[base + s]
                == group_slots(group)[s] by {
                let longer = slots(gv.take(g + 1));
                assert(longer[base + s] == group_slots(group)[s]);
                assert(order.take(longer.len() as int)[base + s] == order[base + s]);
            }
            assert(base + group.members.len() <= order.len());
        }
        let size = groups[g].members.len();
        let last_line = groups[g].last_line;
        let mut s: usize = 0;
        while s < size
            invariant
                0 <= s <= size,
                g < groups@.len(),
                size == groups@[g as int].members@.len(),
                last_line == groups@[g as int].last_line,
                group == groups@[g as int]@,
                group == gv[g as int],
                gv == groups_view(groups@),
                lines@.len() == n,
                n_lines == n,
                spl == side_pointer_length,
                trimmed@.len() == n,
                order.len() == multi@.len(),
                init == states_view(init_lines),
                init_lines.len() == n,
                sum0 + 2 * multi@.len() <= max_text_len(),
                crate::group::groups_sound(gv, multi@.len() as int, n_lines),
                forall|k: int|
                    0 <= k < multi@.len() ==> (#[trigger] multi@[k]).start_line
                        <= multi@[k].end_line < n,
                size * (spl + 1) + 1 <= gutter,
                base + size <= order.len(),
                forall|s: int| 0 <= s < size ==> order[base + s] == group_slots(group)[s],
                commands@.len() == base + s,
                highlights@.len() == 2 * commands@.len(),
                states_view(lines@) == bracket_states(init, multi@, order, commands@.len() as int),
                spacing_sum(states_view(lines@), n_lines) <= sum0 + 2 * commands@.len(),
                forall|t: int|
                    0 <= t < commands@.len() ==> (#[trigger] commands@[t])@ == bracket_plan(
                        init,
                        multi@,
                        order,
                        gutter as int,
                        spl,
                        t,
                    ),
                forall|i: int|
                    0 <= i < highlights@.len() ==> (#[trigger] highlights@[i])@
                        == bracket_highlights(multi@, order, trimmed@)[i],
                lines_grown(init_lines, lines@),
                forall|t: int|
                    0 <= t < commands@.len() ==> bracket_sound(
                        #[trigger] commands@[t],
                        lines@,
                        gutter,
                        multi@,
                    ),
                forall|i: int|
                    0 <= i < highlights@.len() ==> bracket_highlight_sound(
                        #[trigger] highlights@[i],
                        lines@,
                        multi@,
                        trimmed@,
                    ),
            decreases size - s,
        {
            let ghost t = commands@.len() as int;
            let ghost slot = order[t];
            let ghost before = states_view(lines@);
            let ghost old_lines = lines@;
            let ghost old_highlights = highlights@;
            let ghost old_commands = commands@;
            let member = groups[g].members[s];
            proof {
                assert(slot == group_slots(group)[s as int]);
                assert(slot.member == member);
                assert(gv[g as int].members.len() >= 1);
                assert(gv[g as int].members[s as int] < multi@.len());
                assert(last_line < n);
            }
            let m = multi[member];
            let spacing_end = if m.end_line > last_line {
                m.end_line
            } else {
                last_line
            };
            proof {
                assert(spacing_end == spacing_line(m, slot));
                let s1 = reserve(before, m.start_line as int, 0);
                let s2 = reserve(s1, m.end_line as int, 0);
                lemma_spacing_sum_reserve(before, m.start_line as int, 0, n_lines);
                lemma_spacing_sum_reserve(s1, m.end_line as int, 0, n_lines);
                lemma_spacing_sum_reserve(s2, spacing_end as int, 2, n_lines);
                lemma_spacing_below_sum(before, spacing_end as int, n_lines);
                assert(s * (spl + 1) + (spl + 1) <= size * (spl + 1)) by (nonlinear_arith)
                    requires
                        0 <= s < size,
                        0 <= spl,
                ;
                assert(0 <= s * (spl + 1)) by (nonlinear_arith)
                    requires
                        0 <= s,
                        0 <= spl,
                ;
            }
            lines[m.start_line].referenced = true;
            lines[m.end_line].referenced = true;
            lines[spacing_end].referenced = true;
            let depth: usize = lines[spacing_end].spacing + 2;
            lines[spacing_end].spacing = depth;
            proof {
                assert(states_view(lines@) =~= bracket_step(before, m, slot));
            }
            let column: usize = gutter - s * (side_pointer_length + 1) - 2 - side_pointer_length;
            commands.push(
                MultilineCommand {
                    id: m.id,
                    start_line: m.start_line,
                    end_line: m.end_line,
                    spacing_end,
                    depth,
                    side_height: s,
                    column,
                },
            );
            highlights.push(
                Highlight {
                    id: m.id,
                    line: m.start_line,
                    start: m.pre_len,
                    end: trimmed[m.start_line],
                },
            );
            highlights.push(Highlight { id: m.id, line: m.end_line, start: 0, end: m.end_len });
            proof {
                let hs = bracket_highlights(multi@, order, trimmed@);
                assert((2 * t) / 2 == t && (2 * t) % 2 == 0);
                assert((2 * t + 1) / 2 == t && (2 * t + 1) % 2 == 1);
                assert(highlights@[2 * t]@ == hs[2 * t]);
                assert(highlights@[2 * t + 1]@ == hs[2 * t + 1]);
                assert forall|i: int| 0 <= i < highlights@.len() implies (
                #[trigger] highlights@[i])@ == hs[i] by {
                    if i < 2 * t {
                        assert(highlights@[i] == old_highlights[i]);
                    }
                }
                assert(lines_grown(old_lines, lines@));
                assert forall|j: int| 0 <= j < commands@.len() implies bracket_sound(
                    #[trigger] commands@[j],
                    lines@,
                    gutter,
                    multi@,
                ) by {
                    if j < t {
                        let b = old_commands[j];
                        assert(commands@[j] == b);
                        assert(bracket_sound(b, old_lines, gutter, multi@));
                        assert(old_lines[b.spacing_end as int].spacing
                            <= lines@[b.spacing_end as int].spacing);
                    } else {
                        assert(multi@[member as int] == m);
                    }
                }
                assert forall|i: int| 0 <= i < highlights@.len() implies bracket_highlight_sound(
                    #[trigger] highlights@[i],
                    lines@,
                    multi@,
                    trimmed@,
                ) by {
                    if i < 2 * t {
                        assert(highlights@[i] == old_highlights[i]);
                        assert(bracket_highlight_sound(old_highlights[i], old_lines, multi@, trimmed@));
                    } else {
                        assert(multi@[member as int] == m);
                    }
                }
                assert forall|j: int| 0 <= j < commands@.len() implies (#[trigger] commands@[j])@
                    == bracket_plan(init, multi@, order, gutter as int, spl, j) by {
                    if j < t {
                        assert(commands@[j] == old_commands[j]);
                    }
                }
            }
            s = s + 1;
        }
        g = g + 1;
    }
    proof {
        assert(gv.take(g as int) =~= gv);
        assert(brackets_view(commands@) =~= Seq::new(
            order.len(),
            |t: int| bracket_plan(init, multi@, order, gutter as int, spl, t),
        ));
        assert(highlights_view(highlights@) =~= bracket_highlights(multi@, order, trimmed@));
    }
    commands
}

fn settle(lines: &mut Vec<LineState>)
    requires
        forall|i: int| 0 <= i < old(lines)@.len() ==> (#[trigger] old(lines)@[i]).spacing < usize::MAX,
    ensures
        final(lines)@.len() == old(lines)@.len(),
        states_view(final(lines)@) == settled(states_view(old(lines)@)),
        lines_grown(old(lines)@, final(lines)@),
{
    let n = lines.len();
    let ghost init = lines@;
    let mut i: usize = 0;
    while i < n
        invariant
            0 <= i <= n,
            lines@.len() == n,
            init.len() == n,
            forall|j: int| 0 <= j < i ==> (#[trigger] lines@[j])@ == settled(states_view(init))[j],
            forall|j: int| i <= j < n ==> #[trigger] lines@[j] == init[j],
            lines_grown(init, lines@),
        decreases n - i,
    {
        let followed = i + 1 < n && lines[i + 1].referenced;
        if lines[i].referenced && lines[i].spacing == 0 && !followed {
            lines[i].spacing = 1;
        }
        i = i + 1;
    }
    proof {
        assert(states_view(lines@) =~= settled(states_view(init)));
    }
}

fn add_underline_highlights(highlights: &mut Vec<Highlight>, linear: &Vec<LinearAnnotation>)
    ensures
        final(highlights)@.len() == old(highlights)@.len() + linear@.len(),
        forall|i: int|
            0 <= i < old(highlights)@.len() ==> final(highlights)@[i] == old(highlights)@[i],
        forall|k: int|
            0 <= k < linear@.len() ==> (#[trigger] final(highlights)@[old(highlights)@.len() + k])@
                == underline_highlights(linear@)[k],
{
    let ghost init = highlights@;
    let mut k: usize = 0;
    while k < linear.len()
        invariant
            0 <= k <= linear@.len(),
            highlights@.len() == init.len() + k,
            forall|i: int| 0 <= i < init.len() ==> highlights@[i] == init[i],
            forall|j: int|
                0 <= j < k ==> (#[trigger] highlights@[init.len() + j])@ == underline_highlights(
                    linear@,
                )[j],
        decreases linear@.len() - k,
    {
        let a = linear[k];
        highlights.push(
            Highlight { id: a.id, line: a.line, start: a.span.start, end: a.span.end },
        );
        k = k + 1;
    }
}

/// Lays the annotations out on lines whose visible text has the lengths
/// `trimmed`, for a source of `code_len` characters.
pub fn lay_out(
    code_len: usize,
    count: usize,
    trimmed: &Vec<usize>,
    linear: &Vec<LinearAnnotation>,
    multi: &Vec<MultilineAnnotation>,
    sizing: &ThemeSizing,
) -> (layout: Layout)
    requires
        fits(code_len as int, count as int, *sizing),
        linear@.len() + multi@.len() <= count,
        forall|k: int| 0 <= k < linear@.len() ==> (#[trigger] linear@[k]).id < count,
        forall|k: int| 0 <= k < multi@.len() ==> (#[trigger] multi@[k]).id < count,
        trimmed@.len() <= code_len + 1,
        forall|i: int| 0 <= i < trimmed@.len() ==> #[trigger] trimmed@[i] <= code_len,
        forall|k: int|
            0 <= k < linear@.len() ==> (#[trigger] linear@[k]).line < trimmed@.len()
                && linear@[k].span.start <= linear@[k].span.end <= code_len,
        forall|k: int|
            0 <= k < multi@.len() ==> (#[trigger] multi@[k]).start_line <= multi@[k].end_line
                < trimmed@.len() && multi@[k].pre_len <= code_len && multi@[k].end_len <= code_len,
    ensures
        layout@ == layout_of(trimmed@.len() as int, trimmed@, linear@, multi@, *sizing),
        layout@.sound(),
        layout@.ids_below(count as int),
        layout@.lines.len() == trimmed@.len(),
        layout.gutter + code_len <= max_text_len(),
{
    let n = trimmed.len();
    let us = sizing.underline_spacing;
    let spl = sizing.side_pointer_length;
    let ghost n_lines = n as int;
    let ghost both = linear@.len() + multi@.len();
    let ghost u = unit(*sizing);
    proof {
        lemma_budget(count as int, both as int, u, u);
        lemma_budget(both as int, linear@.len() as int, us + 2, u);
        lemma_budget(both as int, multi@.len() as int, spl + 1, u);
        lemma_sizes(linear@.len() as int, multi@.len() as int, us as int, u);
    }
    let mut lines = fresh_states(n);
    let underlines = lay_out_underlines(&mut lines, linear, us);
    let ghost after_linear = states_view(lines@);
    let ghost linear_lines = lines@;
    let groups = group_multiline(multi);
    let ghost gv = groups_view(groups@);
    proof {
        crate::group::lemma_grouped_sound(multi@, n_lines);
        crate::group::lemma_largest_group_bound(gv);
        lemma_slots_len(gv);
    }
    let largest = largest_group_size(&groups);
    proof {
        lemma_budget(multi@.len() as int, largest as int, spl + 1, spl + 1);
    }
    let gutter: usize = if groups.len() == 0 {
        0
    } else {
        largest * (spl + 1) + 1
    };
    proof {
        assert forall|g: int| 0 <= g < groups@.len() implies (#[trigger] groups@[g]).members@.len()
            * (spl + 1) + 1 <= gutter by {
            assert(gv[g] == groups@[g]@);
            lemma_budget(largest as int, gv[g].members.len() as int, spl + 1, spl + 1);
        }
    }
    let mut highlights: Vec<Highlight> = Vec::new();
    let brackets = lay_out_brackets(&mut lines, &mut highlights, multi, &groups, trimmed, gutter, spl);
    let ghost bracket_lines = lines@;
    let ghost bracket_highlights = highlights@;
    add_underline_highlights(&mut highlights, linear);
    proof {
        assert forall|i: int| 0 <= i < lines@.len() implies (#[trigger] lines@[i]).spacing
            < usize::MAX by {
            lemma_spacing_below_sum(states_view(lines@), i, n_lines);
        }
    }
    settle(&mut lines);
    let layout = Layout { gutter, lines, highlights, underlines, brackets };
    proof {
        let order = slots(gv);
        let plan = layout_of(n_lines, trimmed@, linear@, multi@, *sizing);
        assert(layout@.gutter == plan.gutter);
        assert(layout@.lines =~= plan.lines);
        assert(layout@.underlines =~= plan.underlines);
        assert(layout@.brackets =~= plan.brackets);
        assert(layout@.highlights =~= plan.highlights) by {
            let both = crate::layout::bracket_highlights(multi@, order, trimmed@)
                + underline_highlights(linear@);
            assert(highlights_view(bracket_highlights) == crate::layout::bracket_highlights(
                multi@,
                order,
                trimmed@,
            ));
            assert forall|i: int| 0 <= i < layout@.highlights.len() implies layout@.highlights[i]
                == both[i] by {
                if i < bracket_highlights.len() {
                    assert(layout.highlights@[i] == bracket_highlights[i]);
                    assert(highlights_view(bracket_highlights)[i] == bracket_highlights[i]@);
                } else {
                    let k = i - bracket_highlights.len();
                    assert(layout.highlights@[bracket_highlights.len() + k]@
                        == underline_highlights(linear@)[k]);
                }
            }
        }
        // the rows of the board
        let states = states_view(bracket_lines);
        lemma_settled_sum(states, n_lines);
        lemma_row_of_bound(layout@.lines, n_lines);
        assert(layout@.rows() <= max_text_len());
        assert forall|i: int| 0 <= i < layout@.underlines.len() implies {
            let c = #[trigger] layout@.underlines[i];
            &&& 0 <= c.line < layout@.lines.len()
            &&& layout@.lines[c.line].referenced
            &&& 0 <= c.start <= c.end <= max_text_len()
            &&& c.start <= c.anchor <= c.end
            &&& 1 <= c.depth < layout@.lines[c.line].spacing
        } by {
            let c = layout.underlines@[i];
            assert(layout@.underlines[i] == c@);
            assert(linear_lines[c.line as int].spacing <= bracket_lines[c.line as int].spacing);
            assert(bracket_lines[c.line as int].spacing <= layout.lines@[c.line as int].spacing);
            assert(linear@[i].span.end <= code_len);
        }
        assert forall|i: int| 0 <= i < layout@.underlines.len() implies 0 <= (
        #[trigger] layout@.underlines[i]).id < count by {
            assert(layout@.underlines[i] == layout.underlines@[i]@);
            assert(linear@[i].id < count);
        }
        assert forall|i: int| 0 <= i < layout@.brackets.len() implies 0 <= (
        #[trigger] layout@.brackets[i]).id < count by {
            assert(layout@.brackets[i] == layout.brackets@[i]@);
        }
        assert forall|i: int| 0 <= i < layout@.highlights.len() implies 0 <= (
        #[trigger] layout@.highlights[i]).id < count by {
            let h = layout.highlights@[i];
            assert(layout@.highlights[i] == h@);
            if i < bracket_highlights.len() {
                assert(h == bracket_highlights[i]);
            } else {
                let k = i - bracket_highlights.len();
                assert(layout.highlights@[bracket_highlights.len() + k]@ == underline_highlights(
                    linear@,
                )[k]);
                assert(linear@[k].id < count);
            }
        }
        assert forall|i: int| 0 <= i < layout@.brackets.len() implies {
            let b = #[trigger] layout@.brackets[i];
            &&& 0 <= b.start_line <= b.end_line <= b.spacing_end < layout@.lines.len()
            &&& layout@.lines[b.start_line].referenced
            &&& layout@.lines[b.end_line].referenced
            &&& layout@.lines[b.spacing_end].referenced
            &&& 0 <= b.column <= layout@.gutter
            &&& 2 <= b.depth <= layout@.lines[b.spacing_end].spacing
        } by {
            let b = layout.brackets@[i];
            assert(layout@.brackets[i] == b@);
            assert(bracket_lines[b.spacing_end as int].spacing
                <= layout.lines@[b.spacing_end as int].spacing);
        }
        assert forall|i: int| 0 <= i < layout@.highlights.len() implies {
            let h = #[trigger] layout@.highlights[i];
            &&& 0 <= h.line < layout@.lines.len()
            &&& layout@.lines[h.line].referenced
            &&& 0 <= h.start <= max_text_len()
            &&& 0 <= h.end <= max_text_len()
        } by {
            let h = layout.highlights@[i];
            assert(layout@.highlights[i] == h@);
            if i < bracket_highlights.len() {
                assert(h == bracket_highlights[i]);
                assert(bracket_lines[h.line as int].referenced);
            } else {
                let k = i - bracket_highlights.len();
                assert(layout.highlights@[bracket_highlights.len() + k]@ == underline_highlights(
                    linear@,
                )[k]);
                let c = layout.underlines@[k];
                assert(layout@.underlines[k] == c@);
                assert(linear_lines[c.line as int].referenced);
                assert(bracket_lines[c.line as int].referenced);
                assert(linear@[k].span.end <= code_len);
            }
        }
    }
    layout
}

proof fn lemma_sizes(n_linear: int, n_multi: int, us: int, u: int)
    requires
        0 <= n_linear,
        0 <= n_multi,
        0 <= us,
        us + 16 <= u,
    ensures
        n_linear * (us + 2) + 2 * n_multi <= (n_linear + n_multi) * u,
        (n_linear + n_multi + 1) * u == (n_linear + n_multi) * u + u,
{
    assert(n_linear * (us + 2) + 2 * n_multi <= (n_linear + n_multi) * u) by (nonlinear_arith)
        requires
            0 <= n_linear,
            0 <= n_multi,
            0 <= us,
            us + 16 <= u,
    ;
    assert((n_linear + n_multi + 1) * u == (n_linear + n_multi) * u + u) by (nonlinear_arith);
}

proof fn lemma_spacing_sum_zero(n: int, upto: int)
    requires
        0 <= upto <= n,
    ensures
        spacing_sum(no_lines(n), upto) == 0,
    decreases upto,
{
    if upto > 0 {
        lemma_spacing_sum_zero(n, upto - 1);
    }
}

} // verus!
