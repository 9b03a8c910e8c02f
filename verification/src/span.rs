//! Spans of code and the interval difference used to find what stays
//! visible of a span once another is drawn over it.

use std::ops::Range;
use vstd::prelude::*;

verus! {

/// Whether `top` hides any part of `bottom`: `top` is not empty and the two
/// half-open intervals, each a pair of start and end, share a position.
pub open spec fn occludes(top: (int, int), bottom: (int, int)) -> bool {
    top.0 != top.1 && bottom.0 < top.1 && top.0 < bottom.1
}

/// The parts of `bottom` left visible under `top`, from left to right.
///
/// Where `top` hides nothing this is `bottom` itself. Otherwise it is what
/// lies left of `top`, if `bottom` starts before it, followed by what lies
/// right of `top`, if `bottom` ends after it.
pub open spec fn remainder(bottom: (int, int), top: (int, int)) -> Seq<(int, int)> {
    if !occludes(top, bottom) {
        seq![bottom]
    } else {
        let left = if bottom.0 < top.0 {
            seq![(bottom.0, top.0)]
        } else {
            Seq::empty()
        };
        let right = if top.1 < bottom.1 {
            seq![(top.1, bottom.1)]
        } else {
            Seq::empty()
        };
        left + right
    }
}

/// The result of overlaying one span onto another: what remains visible of
/// the bottom span.
#[derive(Debug, Clone, Copy, PartialEq, Eq, Hash)]
pub enum SpanOverlay<S> {
    Empty,
    Single(S),
    Double(S, S),
}

impl<S: Copy> SpanOverlay<S> {
    /// The spans held, in order.
    pub open spec fn items(self) -> Seq<S> {
        match self {
            SpanOverlay::Empty => Seq::empty(),
            SpanOverlay::Single(s) => seq![s],
            SpanOverlay::Double(s1, s2) => seq![s1, s2],
        }
    }

    /// Takes the first span out, if there is one, and leaves the rest.
    pub fn next(&mut self) -> (out: Option<S>)
        ensures
            old(self).items().len() == 0 ==> out is None && *final(self) == *old(self),
            old(self).items().len() > 0 ==> out == Some(old(self).items()[0]),
            old(self).items().len() > 0 ==> final(self).items() == old(self).items().drop_first(),
    {
        match *self {
            SpanOverlay::Empty => None,
            SpanOverlay::Single(s) => {
                *self = SpanOverlay::Empty;
                proof {
                    assert(final(self).items() =~= old(self).items().drop_first());
                }
                Some(s)
            },
            SpanOverlay::Double(s1, s2) => {
                *self = SpanOverlay::Single(s2);
                proof {
                    assert(final(self).items() =~= old(self).items().drop_first());
                }
                Some(s1)
            },
        }
    }
}

/// A byte-aligned or char-aligned span of code.
pub trait MessageSpan: Sized {
    /// The start index of the span, as contracts see it.
    spec fn spec_start(&self) -> usize;

    /// The end index of the span, as contracts see it.
    spec fn spec_end(&self) -> usize;

    /// The start index of the span.
    fn start(&self) -> (r: usize)
        ensures
            r == self.spec_start(),
    ;

    /// The end index of the span.
    fn end(&self) -> (r: usize)
        ensures
            r == self.spec_end(),
    ;

    /// Creates a span from a [`Range<usize>`].
    fn from_range(r: Range<usize>) -> (s: Self)
        ensures
            s.spec_start() == r.start,
            s.spec_end() == r.end,
    ;

    /// Converts the span to a [`Range<usize>`].
    fn to_range(&self) -> (r: Range<usize>)
        ensures
            r.start == self.spec_start(),
            r.end == self.spec_end(),
    {
        self.start()..self.end()
    }

    /// The length of the span.
    fn len(&self) -> (n: usize)
        requires
            self.spec_start() <= self.spec_end(),
        ensures
            n == self.spec_end() - self.spec_start(),
    {
        self.end() - self.start()
    }

    /// Returns `true` if the length of the span is `0`.
    fn is_empty(&self) -> (b: bool)
        requires
            self.spec_start() <= self.spec_end(),
        ensures
            b == (self.spec_start() == self.spec_end()),
    {
        self.len() == 0
    }

    /// Shifts the span to the left by `n`.
    fn sub(self, n: usize) -> (s: Self)
        requires
            n <= self.spec_start(),
            n <= self.spec_end(),
        ensures
            s.spec_start() == self.spec_start() - n,
            s.spec_end() == self.spec_end() - n,
    {
        Self::from_range((self.start() - n)..(self.end() - n))
    }

    /// Shifts the span to the right by `n`.
    fn plus(self, n: usize) -> (s: Self)
        requires
            self.spec_start() + n <= usize::MAX,
            self.spec_end() + n <= usize::MAX,
        ensures
            s.spec_start() == self.spec_start() + n,
            s.spec_end() == self.spec_end() + n,
    {
        Self::from_range((self.start() + n)..(self.end() + n))
    }

    /// Overlays `over` onto this span. The result is what remains visible
    /// of this span, the bottom one.
    fn overlay(self, over: Self) -> (out: SpanOverlay<Self>)
        ensures
            remainder(
                (self.spec_start() as int, self.spec_end() as int),
                (over.spec_start() as int, over.spec_end() as int),
            ) =~= match out {
                SpanOverlay::Empty => Seq::<(int, int)>::empty(),
                SpanOverlay::Single(s) => seq![(s.spec_start() as int, s.spec_end() as int)],
                SpanOverlay::Double(s1, s2) => seq![
                    (s1.spec_start() as int, s1.spec_end() as int),
                    (s2.spec_start() as int, s2.spec_end() as int),
                ],
            },
            !occludes(
                (over.spec_start() as int, over.spec_end() as int),
                (self.spec_start() as int, self.spec_end() as int),
            ) ==> out == SpanOverlay::Single(self),
            occludes(
                (over.spec_start() as int, over.spec_end() as int),
                (self.spec_start() as int, self.spec_end() as int),
            ) ==> match out {
                SpanOverlay::Empty => over.spec_start() <= self.spec_start() && self.spec_end()
                    <= over.spec_end(),
                SpanOverlay::Single(s) => {
                    ||| {
                        &&& self.spec_start() < over.spec_start()
                        &&& self.spec_end() <= over.spec_end()
                        &&& s.spec_start() == self.spec_start()
                        &&& s.spec_end() == over.spec_start()
                    }
                    ||| {
                        &&& over.spec_start() <= self.spec_start()
                        &&& over.spec_end() < self.spec_end()
                        &&& s.spec_start() == over.spec_end()
                        &&& s.spec_end() == self.spec_end()
                    }
                },
                SpanOverlay::Double(s1, s2) => {
                    &&& self.spec_start() < over.spec_start()
                    &&& over.spec_end() < self.spec_end()
                    &&& s1.spec_start() == self.spec_start()
                    &&& s1.spec_end() == over.spec_start()
                    &&& s2.spec_start() == over.spec_end()
                    &&& s2.spec_end() == self.spec_end()
                },
            },
    {
        if over.start() == over.end() || over.end() <= self.start() || over.start()
            >= self.end() {
            return SpanOverlay::Single(self);
        }
        let left = over.start() > self.start();
        let right = over.end() < self.end();
        if left {
            if right {
                let s1 = Self::from_range(self.start()..over.start());
                let s2 = Self::from_range(over.end()..self.end());
                SpanOverlay::Double(s1, s2)
            } else {
                SpanOverlay::Single(Self::from_range(self.start()..over.start()))
            }
        } else {
            if right {
                SpanOverlay::Single(Self::from_range(over.end()..self.end()))
            } else {
                SpanOverlay::Empty
            }
        }
    }
}

impl MessageSpan for Range<usize> {
    open spec fn spec_start(&self) -> usize {
        self.start
    }

    open spec fn spec_end(&self) -> usize {
        self.end
    }

    fn start(&self) -> (r: usize) {
        self.start
    }

    fn end(&self) -> (r: usize) {
        self.end
    }

    fn from_range(r: Range<usize>) -> (s: Self) {
        r
    }
}

/// A span of characters: the half-open range from `start` to `end`.
#[derive(Debug, Clone, Copy, PartialEq, Eq, Hash)]
pub struct CharSpan {
    pub start: usize,
    pub end: usize,
}

impl CharSpan {
    /// The start and end of the span as a pair of integers.
    pub open spec fn bounds(self) -> (int, int) {
        (self.start as int, self.end as int)
    }

    /// The position half way along the span, rounded down.
    pub open spec fn middle(self) -> int {
        self.start + (self.end - self.start) / 2
    }
}

impl MessageSpan for CharSpan {
    open spec fn spec_start(&self) -> usize {
        self.start
    }

    open spec fn spec_end(&self) -> usize {
        self.end
    }

    fn start(&self) -> (r: usize) {
        self.start
    }

    fn end(&self) -> (r: usize) {
        self.end
    }

    fn from_range(r: Range<usize>) -> (s: Self) {
        CharSpan { start: r.start, end: r.end }
    }
}

/// Overlaying a span that shares no position with the bottom span leaves
/// the bottom span as it was.
pub proof fn lemma_overlay_disjoint(bottom: (int, int), top: (int, int))
    requires
        top.1 <= bottom.0 || bottom.1 <= top.0,
    ensures
        remainder(bottom, top) == seq![bottom],
{
}

/// Overlaying a span onto an equal span that is not empty leaves nothing
/// visible.
pub proof fn lemma_overlay_equal(span: (int, int))
    requires
        span.0 < span.1,
    ensures
        remainder(span, span) == Seq::<(int, int)>::empty(),
{
    assert(remainder(span, span) =~= Seq::<(int, int)>::empty());
}

/// Overlaying a span that is not empty and lies strictly inside the bottom
/// span leaves two parts: one from the bottom span's start to the top
/// span's start, one from the top span's end to the bottom span's end.
/// Neither is empty and the first ends before the second starts.
pub proof fn lemma_overlay_contained(bottom: (int, int), top: (int, int))
    requires
        bottom.0 < top.0,
        top.0 < top.1,
        top.1 < bottom.1,
    ensures
        remainder(bottom, top) == seq![(bottom.0, top.0), (top.1, bottom.1)],
        remainder(bottom, top)[0].0 < remainder(bottom, top)[0].1,
        remainder(bottom, top)[0].1 < remainder(bottom, top)[1].0,
        remainder(bottom, top)[1].0 < remainder(bottom, top)[1].1,
{
    assert(remainder(bottom, top) =~= seq![(bottom.0, top.0), (top.1, bottom.1)]);
}

} // verus!
