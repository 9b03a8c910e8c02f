//! The underline layout: what stays visible of each linear annotation
//! under the later ones on its line, and where its connector attaches.

use crate::classify::LinearAnnotation;
use crate::span::{remainder, CharSpan, MessageSpan};
use vstd::prelude::*;

verus! {

/// The bounds of the spans, in order.
pub open spec fn bounds_of(spans: Seq<CharSpan>) -> Seq<(int, int)> {
    Seq::new(spans.len(), |i: int| spans[i].bounds())
}

/// What stays visible of the parts, in order, once `top` is drawn over
/// them.
pub open spec fn overlay_all(parts: Seq<(int, int)>, top: (int, int)) -> Seq<(int, int)>
    decreases parts.len(),
{
    if parts.len() == 0 {
        Seq::empty()
    } else {
        overlay_all(parts.drop_last(), top) + remainder(parts.last(), top)
    }
}

/// What stays visible of the annotation at place `k` under those that
/// follow it on its line, up to place `upto`, each drawn over it in turn.
pub open spec fn visible_upto(linear: Seq<LinearAnnotation>, k: int, upto: int) -> Seq<(int, int)>
    decreases upto - k,
{
    if upto <= k + 1 {
        seq![linear[k].span.bounds()]
    } else {
        let before = visible_upto(linear, k, upto - 1);
        let top = linear[upto - 1];
        if top.line == linear[k].line {
            overlay_all(before, top.span.bounds())
        } else {
            before
        }
    }
}

/// What stays visible of the annotation at place `k` under all those that
/// follow it on its line.
pub open spec fn visible(linear: Seq<LinearAnnotation>, k: int) -> Seq<(int, int)> {
    visible_upto(linear, k, linear.len() as int)
}

/// Whether every part runs forwards and lies within `span`.
pub open spec fn parts_within(parts: Seq<(int, int)>, span: (int, int)) -> bool {
    forall|i: int|
        0 <= i < parts.len() ==> span.0 <= (#[trigger] parts[i]).0 <= parts[i].1 <= span.1
}

/// The position half way along the part, rounded down.
pub open spec fn midpoint(part: (int, int)) -> int {
    part.0 + (part.1 - part.0) / 2
}

/// The number of positions strictly between the part and `middle`, for a
/// part that does not hold `middle`.
pub open spec fn gap(part: (int, int), middle: int) -> int {
    if part.1 <= middle {
        middle - part.1
    } else {
        part.0 - middle - 1
    }
}

/// Whether one of the parts holds `middle`.
pub open spec fn shows(parts: Seq<(int, int)>, middle: int) -> bool {
    exists|i: int| 0 <= i < parts.len() && (#[trigger] parts[i]).0 <= middle < parts[i].1
}

/// The index, among the first `n` parts, of the first of those with the
/// least gap to `middle`.
pub open spec fn nearest(parts: Seq<(int, int)>, middle: int, n: int) -> int
    decreases n,
{
    if n <= 1 {
        0
    } else {
        let best = nearest(parts, middle, n - 1);
        if gap(parts[n - 1], middle) < gap(parts[best], middle) {
            n - 1
        } else {
            best
        }
    }
}

/// The column at which the connector of an annotation attaches: the middle
/// of its span where that is visible or nothing of the span is; else the
/// middle of the visible part nearest to it.
pub open spec fn anchor(span: (int, int), parts: Seq<(int, int)>) -> int {
    let middle = midpoint(span);
    if parts.len() == 0 || shows(parts, middle) {
        middle
    } else {
        midpoint(parts[nearest(parts, middle, parts.len() as int)])
    }
}

/// `nearest` names one of the first `n` parts, none of them has a smaller
/// gap, and none before it has the same.
pub proof fn lemma_nearest(parts: Seq<(int, int)>, middle: int, n: int)
    requires
        1 <= n <= parts.len(),
    ensures
        0 <= nearest(parts, middle, n) < n,
        forall|j: int|
            0 <= j < n ==> gap(parts[nearest(parts, middle, n)], middle) <= gap(
                #[trigger] parts[j],
                middle,
            ),
        forall|j: int|
            0 <= j < nearest(parts, middle, n) ==> gap(parts[nearest(parts, middle, n)], middle)
                < gap(#[trigger] parts[j], middle),
    decreases n,
{
    if n > 1 {
        lemma_nearest(parts, middle, n - 1);
    }
}

/// The parts left of parts that run forwards and lie within a span, under a
/// top span that runs forwards, do so too.
pub proof fn lemma_overlay_all_within(parts: Seq<(int, int)>, top: (int, int), span: (int, int))
    requires
        parts_within(parts, span),
        top.0 <= top.1,
    ensures
        parts_within(overlay_all(parts, top), span),
    decreases parts.len(),
{
    if parts.len() > 0 {
        let head = parts.drop_last();
        assert forall|i: int| 0 <= i < head.len() implies span.0 <= (#[trigger] head[i]).0
            <= head[i].1 <= span.1 by {
            assert(head[i] == parts[i]);
        }
        lemma_overlay_all_within(head, top, span);
        let last = parts.last();
        assert(span.0 <= last.0 <= last.1 <= span.1);
    }
}

/// What stays visible of an annotation runs forwards and lies within its
/// span, where every span on the line runs forwards.
pub proof fn lemma_visible_within(linear: Seq<LinearAnnotation>, k: int, upto: int)
    requires
        0 <= k < linear.len(),
        upto <= linear.len(),
        forall|i: int| 0 <= i < linear.len() ==> (#[trigger] linear[i]).span.start <= linear[i].span.end,
    ensures
        parts_within(visible_upto(linear, k, upto), linear[k].span.bounds()),
    decreases upto - k,
{
    if upto > k + 1 {
        lemma_visible_within(linear, k, upto - 1);
        let top = linear[upto - 1];
        if top.line == linear[k].line {
            lemma_overlay_all_within(
                visible_upto(linear, k, upto - 1),
                top.span.bounds(),
                linear[k].span.bounds(),
            );
        }
    }
}

/// Draws `top` over the parts and returns what stays visible of them, in
/// order.
pub fn overlay_parts(parts: &Vec<CharSpan>, top: CharSpan) -> (out: Vec<CharSpan>)
    ensures
        bounds_of(out@) == overlay_all(bounds_of(parts@), top.bounds()),
{
    let mut out: Vec<CharSpan> = Vec::new();
    let mut i: usize = 0;
    proof {
        assert(bounds_of(parts@).take(0) =~= Seq::empty());
        assert(bounds_of(out@) =~= Seq::empty());
    }
    while i < parts.len()
        invariant
            0 <= i <= parts@.len(),
            bounds_of(out@) == overlay_all(bounds_of(parts@).take(i as int), top.bounds()),
        decreases parts@.len() - i,
    {
        let ghost done = bounds_of(out@);
        let ghost left = remainder(parts@[i as int].bounds(), top.bounds());
        proof {
            let b = bounds_of(parts@);
            assert(b.take(i + 1).drop_last() =~= b.take(i as int));
            assert(b.take(i + 1).last() == parts@[i as int].bounds());
        }
        let mut rest = parts[i].overlay(top);
        proof {
            assert(bounds_of(rest.items()) =~= left);
        }
        loop
            invariant
                bounds_of(out@) + bounds_of(rest.items()) == done + left,
            ensures
                bounds_of(out@) == done + left,
            decreases rest.items().len(),
        {
            let ghost out_before = out@;
            let ghost rest_before = rest.items();
            match rest.next() {
                Some(s) => {
                    out.push(s);
                    proof {
                        assert(bounds_of(out@) + bounds_of(rest.items()) =~= bounds_of(out_before)
                            + bounds_of(rest_before));
                    }
                },
                None => {
                    proof {
                        assert(bounds_of(out@) + bounds_of(rest.items()) =~= bounds_of(out@));
                    }
                    break ;
                },
            }
        }
        i = i + 1;
    }
    proof {
        assert(bounds_of(parts@).take(i as int) =~= bounds_of(parts@));
    }
    out
}

/// Finds what stays visible of the annotation at place `k` under those
/// that follow it on its line.
pub fn visible_parts(linear: &Vec<LinearAnnotation>, k: usize) -> (parts: Vec<CharSpan>)
    requires
        k < linear@.len(),
    ensures
        bounds_of(parts@) == visible(linear@, k as int),
{
    let n = linear.len();
    let mut parts: Vec<CharSpan> = Vec::new();
    parts.push(linear[k].span);
    let mut j: usize = k + 1;
    proof {
        assert(bounds_of(parts@) =~= visible_upto(linear@, k as int, j as int));
    }
    while j < n
        invariant
            n == linear@.len(),
            k < j <= linear@.len(),
            bounds_of(parts@) == visible_upto(linear@, k as int, j as int),
        decreases linear@.len() - j,
    {
        if linear[j].line == linear[k].line {
            parts = overlay_parts(&parts, linear[j].span);
        }
        j = j + 1;
    }
    parts
}

/// Chooses the column at which the connector of an annotation attaches,
/// from its span and what stays visible of it.
pub fn connector_anchor(span: CharSpan, parts: &Vec<CharSpan>) -> (pos: usize)
    requires
        span.start <= span.end,
        forall|i: int| 0 <= i < parts@.len() ==> (#[trigger] parts@[i]).start <= parts@[i].end,
    ensures
        pos == anchor(span.bounds(), bounds_of(parts@)),
{
    let middle = span.start + (span.end - span.start) / 2;
    let ghost b = bounds_of(parts@);
    let mut best: usize = 0;
    let mut best_gap: usize = 0;
    let mut i: usize = 0;
    while i < parts.len()
        invariant
            0 <= i <= parts@.len(),
            b == bounds_of(parts@),
            middle == midpoint(span.bounds()),
            forall|i: int| 0 <= i < parts@.len() ==> (#[trigger] parts@[i]).start <= parts@[i].end,
            forall|j: int| 0 <= j < i ==> !((#[trigger] b[j]).0 <= middle < b[j].1),
            i > 0 ==> best == nearest(b, middle as int, i as int) && best < i && best_gap == gap(
                b[best as int],
                middle as int,
            ),
        decreases parts@.len() - i,
    {
        let part = parts[i];
        assert(b[i as int] == part.bounds());
        if part.start <= middle && middle < part.end {
            assert(shows(b, middle as int));
            return middle;
        }
        let this_gap = if part.end <= middle {
            middle - part.end
        } else {
            part.start - middle - 1
        };
        if i == 0 || this_gap < best_gap {
            best = i;
            best_gap = this_gap;
        }
        i = i + 1;
    }
    if parts.len() == 0 {
        middle
    } else {
        assert(!shows(b, middle as int));
        assert(b[best as int] == parts@[best as int].bounds());
        let part = parts[best];
        part.start + (part.end - part.start) / 2
    }
}

} // verus!
