//! The span classifier: each annotation is either linear, within one line,
//! or multiline.

use crate::lines::{
    contiguous, covered_len, lemma_line_of_holds, lemma_line_of_monotonic, line_of, locate,
    LineRecord,
};
use crate::span::CharSpan;
use vstd::prelude::*;

verus! {

/// An annotation whose span lies within one line. `id` is the annotation's
/// place in the report's list; `span` counts from the start of the line.
#[derive(Debug, Clone, Copy, PartialEq, Eq)]
pub struct LinearAnnotation {
    pub id: usize,
    pub line: usize,
    pub span: CharSpan,
}

/// An annotation that starts on one line and ends on a later one. `id` is
/// the annotation's place in the report's list; `pre_len` is the offset of
/// its start from the start of its first line, `end_len` that of its end
/// from the start of its last line.
#[derive(Debug, Clone, Copy, PartialEq, Eq)]
pub struct MultilineAnnotation {
    pub id: usize,
    pub start_line: usize,
    pub end_line: usize,
    pub pre_len: usize,
    pub end_len: usize,
}

/// An annotation with its place among the lines.
#[derive(Debug, Clone, Copy, PartialEq, Eq)]
pub enum Classified {
    Linear(LinearAnnotation),
    Multiline(MultilineAnnotation),
}

/// The annotations of a report, classified, each kind in the order in which
/// the report lists them.
#[derive(Debug, Clone, PartialEq, Eq)]
pub struct ClassifiedSet {
    pub linear: Vec<LinearAnnotation>,
    pub multiline: Vec<MultilineAnnotation>,
}

/// Whether the span runs forwards and ends within the source that the lines
/// cover.
pub open spec fn span_within(lines: Seq<LineRecord>, span: CharSpan) -> bool {
    span.start <= span.end <= covered_len(lines)
}

/// What the annotation with this span is: linear exactly when its start and
/// its end are on the same line.
pub open spec fn classification(lines: Seq<LineRecord>, id: usize, span: CharSpan) -> Classified {
    let start_line = line_of(lines, span.start as int);
    let end_line = line_of(lines, span.end as int);
    if start_line == end_line {
        Classified::Linear(
            LinearAnnotation {
                id,
                line: start_line as usize,
                span: CharSpan {
                    start: (span.start - lines[start_line].char_start) as usize,
                    end: (span.end - lines[start_line].char_start) as usize,
                },
            },
        )
    } else {
        Classified::Multiline(
            MultilineAnnotation {
                id,
                start_line: start_line as usize,
                end_line: end_line as usize,
                pre_len: (span.start - lines[start_line].char_start) as usize,
                end_len: (span.end - lines[end_line].char_start) as usize,
            },
        )
    }
}

/// The linear annotations among those with the given spans, in order.
pub open spec fn linear_part(lines: Seq<LineRecord>, spans: Seq<CharSpan>) -> Seq<
    LinearAnnotation,
>
    decreases spans.len(),
{
    if spans.len() == 0 {
        Seq::empty()
    } else {
        let rest = linear_part(lines, spans.drop_last());
        match classification(lines, (spans.len() - 1) as usize, spans.last()) {
            Classified::Linear(a) => rest.push(a),
            Classified::Multiline(_) => rest,
        }
    }
}

/// The multiline annotations among those with the given spans, in order.
pub open spec fn multiline_part(lines: Seq<LineRecord>, spans: Seq<CharSpan>) -> Seq<
    MultilineAnnotation,
>
    decreases spans.len(),
{
    if spans.len() == 0 {
        Seq::empty()
    } else {
        let rest = multiline_part(lines, spans.drop_last());
        match classification(lines, (spans.len() - 1) as usize, spans.last()) {
            Classified::Linear(_) => rest,
            Classified::Multiline(m) => rest.push(m),
        }
    }
}

/// Whether a linear annotation fits the lines: it is on one of them, its
/// span runs forwards and ends within the line.
pub open spec fn linear_fits(lines: Seq<LineRecord>, a: LinearAnnotation) -> bool {
    &&& a.line < lines.len()
    &&& a.span.start <= a.span.end
    &&& a.span.end <= lines[a.line as int].char_end - lines[a.line as int].char_start
}

/// Whether a multiline annotation fits the lines: it starts on one of them
/// and ends on a later one, within each.
pub open spec fn multiline_fits(lines: Seq<LineRecord>, m: MultilineAnnotation) -> bool {
    &&& m.start_line < m.end_line < lines.len()
    &&& m.pre_len <= lines[m.start_line as int].char_end - lines[m.start_line as int].char_start
    &&& m.end_len <= lines[m.end_line as int].char_end - lines[m.end_line as int].char_start
}

/// A span within the source is classified as an annotation that fits the
/// lines.
pub proof fn lemma_classification_fits(lines: Seq<LineRecord>, id: usize, span: CharSpan)
    requires
        contiguous(lines),
        lines.len() <= usize::MAX,
        span_within(lines, span),
    ensures
        match classification(lines, id, span) {
            Classified::Linear(a) => linear_fits(lines, a) && a.id == id,
            Classified::Multiline(m) => multiline_fits(lines, m) && m.id == id,
        },
{
    lemma_line_of_holds(lines, span.start as int);
    lemma_line_of_holds(lines, span.end as int);
    lemma_line_of_monotonic(lines, span.start as int, span.end as int);
}

/// Every annotation of the linear part fits the lines and has its span's
/// place in the list as its `id`; the ids ascend.
pub proof fn lemma_linear_part_fits(lines: Seq<LineRecord>, spans: Seq<CharSpan>)
    requires
        contiguous(lines),
        lines.len() <= usize::MAX,
        forall|i: int| 0 <= i < spans.len() ==> span_within(lines, #[trigger] spans[i]),
    ensures
        linear_part(lines, spans).len() <= spans.len(),
        forall|k: int|
            0 <= k < linear_part(lines, spans).len() ==> {
                &&& linear_fits(lines, #[trigger] linear_part(lines, spans)[k])
                &&& linear_part(lines, spans)[k].id < spans.len()
            },
    decreases spans.len(),
{
    if spans.len() > 0 {
        let head = spans.drop_last();
        assert forall|i: int| 0 <= i < head.len() implies span_within(lines, #[trigger] head[i]) by {
            assert(head[i] == spans[i]);
        }
        lemma_linear_part_fits(lines, head);
        lemma_classification_fits(lines, (spans.len() - 1) as usize, spans.last());
    }
}

/// Every annotation of the multiline part fits the lines and has its span's
/// place in the list as its `id`.
pub proof fn lemma_multiline_part_fits(lines: Seq<LineRecord>, spans: Seq<CharSpan>)
    requires
        contiguous(lines),
        lines.len() <= usize::MAX,
        forall|i: int| 0 <= i < spans.len() ==> span_within(lines, #[trigger] spans[i]),
    ensures
        multiline_part(lines, spans).len() <= spans.len(),
        forall|k: int|
            0 <= k < multiline_part(lines, spans).len() ==> {
                &&& multiline_fits(lines, #[trigger] multiline_part(lines, spans)[k])
                &&& multiline_part(lines, spans)[k].id < spans.len()
            },
    decreases spans.len(),
{
    if spans.len() > 0 {
        let head = spans.drop_last();
        assert forall|i: int| 0 <= i < head.len() implies span_within(lines, #[trigger] head[i]) by {
            assert(head[i] == spans[i]);
        }
        lemma_multiline_part_fits(lines, head);
        lemma_classification_fits(lines, (spans.len() - 1) as usize, spans.last());
    }
}

/// Every annotation is of one kind or the other: the two parts together
/// have as many annotations as there are spans.
pub proof fn lemma_parts_len(lines: Seq<LineRecord>, spans: Seq<CharSpan>)
    ensures
        linear_part(lines, spans).len() + multiline_part(lines, spans).len() == spans.len(),
    decreases spans.len(),
{
    if spans.len() > 0 {
        lemma_parts_len(lines, spans.drop_last());
    }
}

/// Where every span starts and ends on the same line, every annotation is
/// linear: there is no multiline annotation, and the linear annotation at
/// place `k` is the annotation at place `k`.
pub proof fn lemma_all_linear(lines: Seq<LineRecord>, spans: Seq<CharSpan>)
    requires
        spans.len() <= usize::MAX,
        forall|i: int|
            0 <= i < spans.len() ==> line_of(lines, (#[trigger] spans[i]).start as int) == line_of(
                lines,
                spans[i].end as int,
            ),
    ensures
        multiline_part(lines, spans).len() == 0,
        linear_part(lines, spans).len() == spans.len(),
        forall|k: int|
            0 <= k < spans.len() ==> Classified::Linear(#[trigger] linear_part(lines, spans)[k])
                == classification(lines, k as usize, spans[k]),
    decreases spans.len(),
{
    if spans.len() > 0 {
        let head = spans.drop_last();
        assert forall|i: int| 0 <= i < head.len() implies line_of(
            lines,
            (#[trigger] head[i]).start as int,
        ) == line_of(lines, head[i].end as int) by {
            assert(head[i] == spans[i]);
        }
        lemma_all_linear(lines, head);
        let last = spans.len() - 1;
        assert(line_of(lines, spans[last].start as int) == line_of(lines, spans[last].end as int));
        assert forall|k: int| 0 <= k < spans.len() implies Classified::Linear(
            #[trigger] linear_part(lines, spans)[k],
        ) == classification(lines, k as usize, spans[k]) by {
            if k < last {
                assert(linear_part(lines, spans)[k] == linear_part(lines, head)[k]);
                assert(head[k] == spans[k]);
            }
        }
    }
}

/// Classifies one annotation by the lines on which its span starts and
/// ends.
pub fn classify(lines: &Vec<LineRecord>, id: usize, span: CharSpan) -> (c: Classified)
    requires
        contiguous(lines@),
        span_within(lines@, span),
    ensures
        c == classification(lines@, id, span),
        (c is Linear) == (line_of(lines@, span.start as int) == line_of(lines@, span.end as int)),
{
    let start_line = locate(lines, span.start);
    let end_line = locate(lines, span.end);
    proof {
        lemma_line_of_holds(lines@, span.start as int);
        lemma_line_of_holds(lines@, span.end as int);
    }
    if start_line == end_line {
        let base = lines[start_line].char_start;
        Classified::Linear(
            LinearAnnotation {
                id,
                line: start_line,
                span: CharSpan { start: span.start - base, end: span.end - base },
            },
        )
    } else {
        Classified::Multiline(
            MultilineAnnotation {
                id,
                start_line,
                end_line,
                pre_len: span.start - lines[start_line].char_start,
                end_len: span.end - lines[end_line].char_start,
            },
        )
    }
}

/// Classifies the annotations with the given spans, in order.
pub fn classify_all(lines: &Vec<LineRecord>, spans: &Vec<CharSpan>) -> (set: ClassifiedSet)
    requires
        contiguous(lines@),
        forall|i: int| 0 <= i < spans@.len() ==> span_within(lines@, #[trigger] spans@[i]),
    ensures
        set.linear@ == linear_part(lines@, spans@),
        set.multiline@ == multiline_part(lines@, spans@),
{
    let mut linear: Vec<LinearAnnotation> = Vec::new();
    let mut multiline: Vec<MultilineAnnotation> = Vec::new();
    let mut i: usize = 0;
    while i < spans.len()
        invariant
            0 <= i <= spans@.len(),
            contiguous(lines@),
            forall|i: int| 0 <= i < spans@.len() ==> span_within(lines@, #[trigger] spans@[i]),
            linear@ == linear_part(lines@, spans@.take(i as int)),
            multiline@ == multiline_part(lines@, spans@.take(i as int)),
        decreases spans@.len() - i,
    {
        proof {
            assert(spans@.take(i + 1).drop_last() =~= spans@.take(i as int));
            assert(spans@.take(i + 1).last() == spans@[i as int]);
        }
        match classify(lines, i, spans[i]) {
            Classified::Linear(a) => linear.push(a),
            Classified::Multiline(m) => multiline.push(m),
        }
        i = i + 1;
    }
    proof {
        assert(spans@.take(i as int) =~= spans@);
    }
    ClassifiedSet { linear, multiline }
}

} // verus!
