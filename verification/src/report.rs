//! The report: source code with its annotations, laid out and painted
//! onto the board.

use crate::board::{board_view, BoardRow, Color, RowView};
use crate::classify::{
    classify_all, lemma_linear_part_fits, lemma_multiline_part_fits, lemma_parts_len, linear_part,
    multiline_part, span_within, Classified,
};
use crate::compose::{compose, painted};
use crate::layout::{fits, lay_out, layout_of, unit};
use crate::lines::{index_lines, is_line_index, LineRecord};
use crate::span::CharSpan;
use crate::text::{max_text_len, trim_end_len, trimmed_len, utf32_chars};
use crate::theme::{Theme, ThemeSizing};
use crate::util::{byte_span_to_char_span, char_offset, on_char_boundary};
use std::ops::Range;
use vstd::prelude::*;
use vstd::string::*;

verus! {

/// Why a report cannot be laid out.
#[derive(Debug, Clone, Copy, PartialEq, Eq)]
pub enum ReportError {
    /// The span of the annotation at place `index` runs backwards, ends
    /// past the end of the source or, where spans count bytes, splits a
    /// character.
    InvalidSpan { index: usize },
    /// The source, the annotations and the theme's sizes together are more
    /// than the library lays out.
    TooLarge,
}

impl ReportError {
    /// What the error says, in words.
    pub open spec fn description(self) -> Seq<char> {
        match self {
            ReportError::InvalidSpan { index } => "the span of annotation "@
                + crate::render::digits_of(index as nat)
                + " is not a valid span of the source"@,
            ReportError::TooLarge => "the report is too large to lay out"@,
        }
    }

    /// Says in words what the error is.
    pub fn describe(&self) -> (text: String)
        ensures
            text@ == self.description(),
    {
        match self {
            ReportError::InvalidSpan { index } => {
                let mut text = "the span of annotation ".to_owned();
                let digits = crate::render::string_of(&crate::render::decimal(*index));
                text.append(digits.as_str());
                text.append(" is not a valid span of the source");
                text
            },
            ReportError::TooLarge => "the report is too large to lay out".to_owned(),
        }
    }
}

/// A code report: the source code, one character per column, and the spans,
/// messages and colours of its annotations.
#[derive(Debug, Clone, PartialEq, Eq)]
pub struct Report<'a> {
    code: Vec<char>,
    lines: Vec<LineRecord>,
    messages: Vec<(Range<usize>, String, Color)>,
    realign: Option<&'a str>,
    pub theme: Theme,
}

/// The length of the visible text of a line: that of the line without the
/// white space at its end, and never more than that of the line.
pub open spec fn shown_len(text: Seq<char>) -> nat {
    if trim_end_len(text) <= text.len() {
        trim_end_len(text)
    } else {
        text.len()
    }
}

/// The length of the visible text of each line.
pub open spec fn trimmed_lens(lines: Seq<LineRecord>) -> Seq<usize> {
    Seq::new(lines.len(), |l: int| shown_len(lines[l].text@) as usize)
}

/// The board of the annotations with the given spans, in characters, on
/// the given lines.
pub open spec fn board_of(
    lines: Seq<LineRecord>,
    spans: Seq<CharSpan>,
    annotations: Seq<(Range<usize>, String, Color)>,
    theme: Theme,
) -> Seq<RowView> {
    let trimmed = trimmed_lens(lines);
    let plan = layout_of(
        lines.len() as int,
        trimmed,
        linear_part(lines, spans),
        multiline_part(lines, spans),
        theme.sizing,
    );
    painted(lines, trimmed, plan, annotations, theme)
}

impl<'a> Report<'a> {
    /// The source code, one character after the other.
    pub closed spec fn code(&self) -> Seq<char> {
        self.code@
    }

    /// The line index of the source code.
    pub closed spec fn lines(&self) -> Seq<LineRecord> {
        self.lines@
    }

    /// The annotations: the span, the message and the colour of each.
    pub closed spec fn annotations(&self) -> Seq<(Range<usize>, String, Color)> {
        self.messages@
    }

    /// The theme with which the report is displayed.
    pub closed spec fn spec_theme(&self) -> Theme {
        self.theme
    }

    /// The text whose bytes the spans count, where they count bytes.
    pub closed spec fn byte_text(&self) -> Option<Seq<char>> {
        match self.realign {
            Some(text) => Some(text@),
            None => None,
        }
    }

    /// Whether the spans count bytes of the source; else they count
    /// characters.
    pub open spec fn byte_spanned(&self) -> bool {
        self.byte_text() is Some
    }

    /// Whether the report is well formed: its lines are the line index of
    /// its source, and where its spans count bytes they count the bytes of
    /// its source.
    pub open spec fn wf(&self) -> bool {
        &&& is_line_index(self.code(), self.lines())
        &&& self.lines().len() <= self.code().len() + 1
        &&& self.byte_text() matches Some(text) ==> text == self.code()
    }

    /// Whether the span of the annotation at place `i` is valid: it runs
    /// forwards and ends within the source, and where spans count bytes it
    /// starts and ends where a character does.
    pub open spec fn span_valid(&self, i: int) -> bool {
        let span = self.annotations()[i].0;
        if self.byte_spanned() {
            &&& span.start <= span.end
            &&& on_char_boundary(self.code(), span.start as int)
            &&& on_char_boundary(self.code(), span.end as int)
        } else {
            span.start <= span.end <= self.code().len()
        }
    }

    /// The span of the annotation at place `i` in characters.
    pub open spec fn char_span(&self, i: int) -> CharSpan {
        let span = self.annotations()[i].0;
        if self.byte_spanned() {
            CharSpan {
                start: char_offset(self.code(), span.start as int) as usize,
                end: char_offset(self.code(), span.end as int) as usize,
            }
        } else {
            CharSpan { start: span.start, end: span.end }
        }
    }

    /// The spans of the annotations in characters.
    pub open spec fn char_spans(&self) -> Seq<CharSpan> {
        Seq::new(self.annotations().len(), |i: int| self.char_span(i))
    }

    /// Whether every span is valid.
    pub open spec fn spans_valid(&self) -> bool {
        forall|i: int| 0 <= i < self.annotations().len() ==> self.span_valid(i)
    }

    /// Whether the report is within what the library lays out.
    pub open spec fn fits(&self) -> bool {
        fits(self.code().len() as int, self.annotations().len() as int, self.spec_theme().sizing)
    }

    /// The board of the report.
    pub open spec fn board_spec(&self) -> Seq<RowView> {
        board_of(self.lines(), self.char_spans(), self.annotations(), self.spec_theme())
    }

    /// Creates a new report from source code and annotations with
    /// byte-aligned spans.
    pub fn new_byte_spanned(code: &'a str, messages: Vec<(Range<usize>, String, Color)>) -> (report:
        Self)
        ensures
            report.wf(),
            report.code() == code@,
            report.annotations() == messages@,
            report.byte_spanned(),
            report.spec_theme() == Theme::spec_default(),
    {
        let chars = utf32_chars(code);
        let lines = index_lines(&chars);
        Report { code: chars, lines, messages, realign: Some(code), theme: Theme::default() }
    }

    /// Creates a new report from source code and annotations with
    /// char-aligned spans.
    pub fn new_char_spanned(code: &str, messages: Vec<(Range<usize>, String, Color)>) -> (report:
        Self)
        ensures
            report.wf(),
            report.code() == code@,
            report.annotations() == messages@,
            !report.byte_spanned(),
            report.spec_theme() == Theme::spec_default(),
    {
        let chars = utf32_chars(code);
        let lines = index_lines(&chars);
        Report { code: chars, lines, messages, realign: None, theme: Theme::default() }
    }

    /// Replaces the theme of the report.
    pub fn with_theme(self, theme: Theme) -> (report: Self)
        ensures
            report.spec_theme() == theme,
            report.code() == self.code(),
            report.lines() == self.lines(),
            report.annotations() == self.annotations(),
            report.byte_text() == self.byte_text(),
            self.wf() ==> report.wf(),
    {
        let mut report = self;
        report.theme = theme;
        report
    }

    /// The index of the first annotation whose span is not valid, or the
    /// number of annotations where every span is valid.
    pub open spec fn first_invalid(&self, from: int) -> int
        decreases self.annotations().len() - from,
    {
        if from >= self.annotations().len() {
            self.annotations().len() as int
        } else if !self.span_valid(from) {
            from
        } else {
            self.first_invalid(from + 1)
        }
    }

    /// Checks the spans of the annotations and turns them into spans of
    /// characters.
    pub fn checked_spans(&self) -> (result: Result<Vec<CharSpan>, ReportError>)
        requires
            self.wf(),
        ensures
            match result {
                Ok(spans) => self.spans_valid() && spans@ == self.char_spans(),
                Err(ReportError::InvalidSpan { index }) => index < self.annotations().len()
                    && !self.span_valid(index as int) && forall|j: int|
                    0 <= j < index ==> self.span_valid(j),
                Err(ReportError::TooLarge) => false,
            },
    {
        let mut spans: Vec<CharSpan> = Vec::new();
        let mut i: usize = 0;
        while i < self.messages.len()
            invariant
                0 <= i <= self.messages@.len(),
                self.wf(),
                spans@.len() == i,
                forall|j: int| 0 <= j < i ==> self.span_valid(j),
                forall|j: int| 0 <= j < i ==> #[trigger] spans@[j] == self.char_span(j),
            decreases self.messages@.len() - i,
        {
            let start = self.messages[i].0.start;
            let end = self.messages[i].0.end;
            match self.realign {
                Some(text) => {
                    if start <= end && text.is_char_boundary(start) && text.is_char_boundary(end) {
                        let span = byte_span_to_char_span(text, CharSpan { start, end });
                        spans.push(span);
                    } else {
                        return Err(ReportError::InvalidSpan { index: i });
                    }
                },
                None => {
                    if start <= end && end <= self.code.len() {
                        spans.push(CharSpan { start, end });
                    } else {
                        return Err(ReportError::InvalidSpan { index: i });
                    }
                },
            }
            i = i + 1;
        }
        proof {
            assert(spans@ =~= self.char_spans());
        }
        Ok(spans)
    }

    /// Tells whether the report is within what the library lays out.
    pub fn check_fits(&self) -> (ok: bool)
        ensures
            ok == self.fits(),
    {
        fits_within(self.code.len(), self.messages.len(), &self.theme.sizing)
    }

    /// Measures the visible text of each line.
    pub fn measure(&self) -> (trimmed: Vec<usize>)
        ensures
            trimmed@ == trimmed_lens(self.lines()),
            forall|l: int|
                0 <= l < trimmed@.len() ==> #[trigger] trimmed@[l] <= self.lines()[l].text@.len(),
    {
        let mut trimmed: Vec<usize> = Vec::new();
        let mut l: usize = 0;
        while l < self.lines.len()
            invariant
                0 <= l <= self.lines@.len(),
                trimmed@.len() == l,
                forall|j: int|
                    0 <= j < l ==> #[trigger] trimmed@[j] == shown_len(self.lines@[j].text@)
                        && trimmed@[j] <= self.lines@[j].text@.len(),
            decreases self.lines@.len() - l,
        {
            trimmed.push(trimmed_len(&self.lines[l].text));
            l = l + 1;
        }
        proof {
            assert(trimmed@ =~= trimmed_lens(self.lines()));
        }
        trimmed
    }

    /// Lays the report out and paints its board: one content row for each
    /// line that an annotation refers to, followed by the rows reserved
    /// below it.
    pub fn board(&self) -> (result: Result<Vec<BoardRow>, ReportError>)
        requires
            self.wf(),
        ensures
            self.spans_valid() && self.fits() ==> result is Ok,
            match result {
                Ok(board) => self.spans_valid() && self.fits() && board_view(board@)
                    == self.board_spec(),
                Err(ReportError::InvalidSpan { index }) => index == self.first_invalid(0)
                    && index < self.annotations().len(),
                Err(ReportError::TooLarge) => self.spans_valid() && !self.fits(),
            },
            result matches Ok(board) ==> forall|r: int|
                0 <= r < board@.len() ==> match (#[trigger] board@[r]).line {
                    Some(l) => l < self.lines().len(),
                    None => true,
                },
    {
        let spans = match self.checked_spans() {
            Ok(spans) => spans,
            Err(e) => {
                proof {
                    match e {
                        ReportError::InvalidSpan { index } => {
                            self.lemma_first_invalid(0, index as int);
                        },
                        ReportError::TooLarge => {},
                    }
                }
                return Err(e);
            },
        };
        if !self.check_fits() {
            return Err(ReportError::TooLarge);
        }
        let count = self.messages.len();
        let code_len = self.code.len();
        let trimmed = self.measure();
        proof {
            let lines = self.lines@;
            assert forall|i: int| 0 <= i < spans@.len() implies span_within(
                lines,
                #[trigger] spans@[i],
            ) by {
                assert(self.span_valid(i));
                assert(spans@[i] == self.char_span(i));
                if self.byte_spanned() {
                    let span = self.annotations()[i].0;
                    crate::util::lemma_char_offset_monotonic(
                        self.code(),
                        span.start as int,
                        span.end as int,
                    );
                }
            }
            lemma_linear_part_fits(lines, spans@);
            lemma_multiline_part_fits(lines, spans@);
            lemma_parts_len(lines, spans@);
            lemma_unit_fits(code_len as int, count as int, self.theme.sizing);
        }
        let set = classify_all(&self.lines, &spans);
        let layout = lay_out(code_len, count, &trimmed, &set.linear, &set.multiline, &self.theme.sizing);
        let board = compose(&self.lines, &trimmed, &layout, &self.messages, &self.theme);
        proof {
            let plan = layout@;
            crate::shape::lemma_painted_shape(
                self.lines@,
                trimmed@,
                plan,
                self.messages@,
                self.theme,
            );
            crate::shape::lemma_blank_rows_shape(
                self.lines@,
                trimmed@,
                plan.lines,
                plan.gutter,
                plan.lines.len() as int,
            );
            let rows = crate::compose::blank_rows(
                self.lines@,
                trimmed@,
                plan.lines,
                plan.gutter,
                plan.lines.len() as int,
            );
            assert forall|r: int| 0 <= r < board@.len() implies match (#[trigger] board@[r]).line {
                Some(l) => l < self.lines@.len(),
                None => true,
            } by {
                assert(board_view(board@)[r] == board@[r]@);
                assert(board@[r]@.line == rows[r].line);
            }
        }
        Ok(board)
    }

    /// Lays the report out and renders its board as the lines of text to
    /// print, top to bottom.
    pub fn display(self) -> (result: Result<Vec<String>, ReportError>)
        requires
            self.wf(),
        ensures
            self.spans_valid() && self.fits() ==> result is Ok,
            match result {
                Ok(out) => {
                    &&& self.spans_valid()
                    &&& self.fits()
                    &&& out@.len() == self.board_spec().len()
                    &&& forall|r: int|
                        0 <= r < out@.len() ==> crate::render::renders(
                            self.board_spec()[r],
                            crate::render::number_width(self.board_spec()),
                            self.spec_theme(),
                            (#[trigger] out@[r])@,
                        )
                },
                Err(ReportError::InvalidSpan { index }) => index == self.first_invalid(0)
                    && index < self.annotations().len(),
                Err(ReportError::TooLarge) => self.spans_valid() && !self.fits(),
            },
    {
        match self.board() {
            Ok(board) => {
                let out = crate::render::render_board(&board, &self.theme);
                proof {
                    assert forall|r: int| 0 <= r < out@.len() implies crate::render::renders(
                        self.board_spec()[r],
                        crate::render::number_width(self.board_spec()),
                        self.spec_theme(),
                        (#[trigger] out@[r])@,
                    ) by {
                        assert(board_view(board@)[r] == board@[r]@);
                    }
                }
                Ok(out)
            },
            Err(e) => Err(e),
        }
    }

    /// On a source made of ASCII characters only, spans that count bytes
    /// and spans that count characters are the same: a report whose spans
    /// count bytes takes a span as valid exactly when a report on the same
    /// source whose spans count characters does, and both give it the same
    /// offsets in characters.
    pub proof fn lemma_ascii_spans_agree(&self, other: &Self, i: int)
        requires
            self.wf(),
            other.wf(),
            self.code() == other.code(),
            self.annotations() == other.annotations(),
            self.byte_spanned(),
            !other.byte_spanned(),
            vstd::utf8::is_ascii_chars(self.code()),
            0 <= i < self.annotations().len(),
        ensures
            self.span_valid(i) == other.span_valid(i),
            self.span_valid(i) ==> self.char_span(i) == other.char_span(i),
    {
        let span = self.annotations()[i].0;
        crate::util::lemma_ascii_boundaries(self.code(), span.start as int);
        crate::util::lemma_ascii_boundaries(self.code(), span.end as int);
        if self.span_valid(i) {
            crate::util::lemma_char_offset_ascii(self.code(), span.start as int);
            crate::util::lemma_char_offset_ascii(self.code(), span.end as int);
        }
    }

    /// The board of a report shows the message of every annotation: each
    /// has a row that it trails.
    pub proof fn lemma_every_message_shown(&self, i: int)
        requires
            self.wf(),
            self.spans_valid(),
            self.annotations().len() <= usize::MAX,
            self.lines().len() <= usize::MAX,
            0 <= i < self.annotations().len(),
        ensures
            exists|r: int|
                0 <= r < self.board_spec().len() && (#[trigger] self.board_spec()[r]).end_str
                    == Some(self.annotations()[i].1@),
    {
        let lines = self.lines();
        let spans = self.char_spans();
        let trimmed = trimmed_lens(lines);
        let linear = linear_part(lines, spans);
        let multi = multiline_part(lines, spans);
        let theme = self.spec_theme();
        let plan = layout_of(lines.len() as int, trimmed, linear, multi, theme.sizing);
        let board = self.board_spec();
        assert forall|j: int| 0 <= j < spans.len() implies span_within(
            lines,
            #[trigger] spans[j],
        ) by {
            assert(self.span_valid(j));
            if self.byte_spanned() {
                let span = self.annotations()[j].0;
                crate::util::lemma_char_offset_monotonic(
                    self.code(),
                    span.start as int,
                    span.end as int,
                );
            }
        }
        lemma_linear_part_fits(lines, spans);
        lemma_multiline_part_fits(lines, spans);
        assert(crate::law::on_lines(linear, lines.len() as int)) by {
            assert forall|j: int| 0 <= j < linear.len() implies (#[trigger] linear[j]).line
                < lines.len() && linear[j].span.start <= linear[j].span.end by {
                assert(crate::classify::linear_fits(lines, linear[j]));
            }
        }
        assert(crate::messages::brackets_on_lines(multi, lines.len() as int)) by {
            assert forall|j: int| 0 <= j < multi.len() implies (#[trigger] multi[j]).start_line
                <= multi[j].end_line < lines.len() by {
                assert(crate::classify::multiline_fits(lines, multi[j]));
            }
        }
        crate::messages::lemma_every_message_shown(
            lines,
            trimmed,
            linear,
            multi,
            self.annotations(),
            theme,
        );
        crate::messages::lemma_commands_for_all(
            lines.len() as int,
            trimmed,
            linear,
            multi,
            theme.sizing,
        );
        crate::messages::lemma_classified(lines, spans, i);
        if exists|k: int| 0 <= k < linear.len() && (#[trigger] linear[k]).id == i {
            let k = choose|k: int| 0 <= k < linear.len() && (#[trigger] linear[k]).id == i;
            let r = plan.underline_message_row(k);
            assert(plan.underlines[k].id == i);
            assert(board[r].end_str == Some(self.annotations()[i].1@));
        } else {
            let k = choose|k: int| 0 <= k < multi.len() && (#[trigger] multi[k]).id == i;
            assert(crate::messages::has_bracket(plan, multi[k].id as int));
            let t = choose|t: int|
                0 <= t < plan.brackets.len() && (#[trigger] plan.brackets[t]).id == i;
            let r = plan.bracket_message_row(t);
            assert(board[r].end_str == Some(self.annotations()[i].1@));
        }
    }

    /// Of the annotations of a report that are all on one line each and of
    /// which no two on a line overlap, the board shows for each: the visible
    /// text of its line on the content row of the line, with the cells
    /// under its span in its colour; on the row below, under its span and
    /// as long as it, the underline in its colour, with the junction at the
    /// middle of the span; and below the underline its message.
    pub proof fn lemma_underlines_shown(&self, k: int)
        requires
            self.wf(),
            self.spans_valid(),
            self.annotations().len() <= usize::MAX,
            self.lines().len() <= usize::MAX,
            forall|i: int|
                0 <= i < self.annotations().len() ==> crate::lines::line_of(
                    self.lines(),
                    (#[trigger] self.char_spans()[i]).start as int,
                ) == crate::lines::line_of(self.lines(), self.char_spans()[i].end as int),
            crate::law::apart(linear_part(self.lines(), self.char_spans())),
            0 <= k < self.annotations().len(),
        ensures
            ({
                let lines = self.lines();
                let trimmed = trimmed_lens(lines);
                let linear = linear_part(lines, self.char_spans());
                let plan = layout_of(
                    lines.len() as int,
                    trimmed,
                    linear,
                    Seq::empty(),
                    self.spec_theme().sizing,
                );
                let tint = crate::compose::color_of(self.annotations(), k);
                &&& linear.len() == self.annotations().len()
                &&& linear[k].id == k
                &&& self.board_spec() == painted(
                    lines,
                    trimmed,
                    plan,
                    self.annotations(),
                    self.spec_theme(),
                )
                &&& crate::law::line_shown(
                    self.board_spec(),
                    lines,
                    trimmed,
                    plan,
                    linear[k],
                    tint,
                    true,
                )
                &&& crate::law::underline_shown(
                    self.board_spec(),
                    plan,
                    self.spec_theme(),
                    linear[k],
                    plan.underlines[k].depth,
                    tint,
                    crate::compose::message_of(self.annotations(), k),
                )
            }),
    {
        let lines = self.lines();
        let spans = self.char_spans();
        let trimmed = trimmed_lens(lines);
        let linear = linear_part(lines, spans);
        assert forall|i: int| 0 <= i < spans.len() implies span_within(
            lines,
            #[trigger] spans[i],
        ) by {
            assert(self.span_valid(i));
            if self.byte_spanned() {
                let span = self.annotations()[i].0;
                crate::util::lemma_char_offset_monotonic(
                    self.code(),
                    span.start as int,
                    span.end as int,
                );
            }
        }
        crate::classify::lemma_all_linear(lines, spans);
        lemma_linear_part_fits(lines, spans);
        assert(multiline_part(lines, spans) =~= Seq::empty());
        assert(crate::law::on_lines(linear, lines.len() as int)) by {
            assert forall|j: int| 0 <= j < linear.len() implies (#[trigger] linear[j]).line
                < lines.len() && linear[j].span.start <= linear[j].span.end by {
                assert(crate::classify::linear_fits(lines, linear[j]));
            }
        }
        crate::law::lemma_underlines_shown(
            lines,
            trimmed,
            linear,
            self.annotations(),
            self.spec_theme(),
            k,
        );
        assert(Classified::Linear(linear[k]) == crate::classify::classification(
            lines,
            k as usize,
            spans[k],
        ));
    }

    /// Where every span before `index` is valid and the one at `index` is
    /// not, `index` is the first that is not valid.
    pub proof fn lemma_first_invalid(&self, from: int, index: int)
        requires
            0 <= from <= index < self.annotations().len(),
            !self.span_valid(index),
            forall|j: int| from <= j < index ==> self.span_valid(j),
        ensures
            self.first_invalid(from) == index,
        decreases index - from,
    {
        if from < index {
            self.lemma_first_invalid(from + 1, index);
        }
    }
}

/// Within the footprint each of the theme's sizes is within what the
/// library lays out.
pub proof fn lemma_unit_fits(code_len: int, count: int, sizing: ThemeSizing)
    requires
        0 <= code_len,
        0 <= count,
        fits(code_len, count, sizing),
    ensures
        unit(sizing) <= max_text_len(),
        crate::compose::arms_fit(sizing),
        sizing.pre_line_number_padding <= max_text_len(),
{
    let u = unit(sizing);
    assert((count + 1) * u >= u) by (nonlinear_arith)
        requires
            count >= 0,
            u >= 0,
    ;
}

/// Tells whether a report with `count` annotations on a source of
/// `code_len` characters is within what the library lays out.
pub fn fits_within(code_len: usize, count: usize, sizing: &ThemeSizing) -> (ok: bool)
    ensures
        ok == fits(code_len as int, count as int, *sizing),
{
    let limit: usize = usize::MAX / 8;
    let total: usize = sizing.pre_line_number_padding;
    if total > limit || code_len > limit || count > limit {
        proof {
            lemma_footprint_above(code_len as int, count as int, *sizing);
        }
        return false;
    }
    let us = sizing.underline_spacing;
    let ual = sizing.underline_arm_length;
    let sal = sizing.side_arm_length;
    let spl = sizing.side_pointer_length;
    if us > limit || ual > limit || sal > limit || spl > limit {
        proof {
            lemma_footprint_above(code_len as int, count as int, *sizing);
        }
        return false;
    }
    let u: usize = total + us + ual + sal + spl + 16;
    proof {
        assert(u == unit(*sizing));
    }
    match (count + 1).checked_mul(u) {
        None => {
            proof {
                assert((count + 1) * u > usize::MAX);
            }
            false
        },
        Some(product) => {
            product <= limit && 2 * (code_len + 1) <= limit - product
        },
    }
}

proof fn lemma_footprint_above(code_len: int, count: int, sizing: ThemeSizing)
    requires
        0 <= code_len,
        0 <= count,
    ensures
        footprint_parts_below(code_len, count, sizing) || !fits(code_len, count, sizing),
{
    let u = unit(sizing);
    assert((count + 1) * u >= u && (count + 1) * u >= count + 1) by (nonlinear_arith)
        requires
            count >= 0,
            u >= 16,
    ;
}

/// Whether the source, the annotations and each of the theme's sizes are
/// each within what the library lays out.
pub open spec fn footprint_parts_below(code_len: int, count: int, sizing: ThemeSizing) -> bool {
    &&& code_len <= max_text_len()
    &&& count <= max_text_len()
    &&& sizing.pre_line_number_padding <= max_text_len()
    &&& sizing.underline_spacing <= max_text_len()
    &&& sizing.underline_arm_length <= max_text_len()
    &&& sizing.side_arm_length <= max_text_len()
    &&& sizing.side_pointer_length <= max_text_len()
}

} // verus!
