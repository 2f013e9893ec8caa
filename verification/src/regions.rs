//! The source region over which a loan takes a capability away.

use crate::context::PermissionsCtxt;
use crate::facts::{holds, PointData};
use crate::place::{Loan, Path, Point};
use crate::span::{
    all_wf, all_within, apart, lemma_smooth_within, ordered_by_lo, separated, smooth, smooth_spans,
    Range, Span,
};
use std::collections::HashMap;
use vstd::prelude::*;

verus! {

broadcast use vstd::std_specs::hash::group_hash_axioms;

/// What refines a path: a loan or a move, with its place in the source.
#[derive(Clone, Copy, Debug, PartialEq)]
pub enum Refiner {
    Loan(Range),
    Move(Range),
}

/// Where in the source a refinement holds.
#[derive(Clone, Debug, PartialEq)]
pub struct RefinementRegion {
    /// Where the refinement comes from.
    pub refiner_point: Refiner,
    /// The contiguous runs of source over which it holds.
    pub refined_ranges: Vec<Range>,
    /// Where it begins.
    pub start: Range,
    /// Where it ends.
    pub end: Range,
}

/// The index of the syntactic span that stands for an instruction: among
/// the spans that contain the instruction's own span, the first of those
/// with the least source outside it.
pub open spec fn best_enclosing(enclosing: Seq<Span>, inner: Span) -> Option<int>
    decreases enclosing.len(),
{
    if enclosing.len() == 0 {
        None
    } else {
        let last = enclosing.last();
        match best_enclosing(enclosing.drop_last(), inner) {
            None => if last.spec_contains(inner) {
                Some(enclosing.len() - 1)
            } else {
                None
            },
            Some(best) => if last.spec_contains(inner) && last.spec_excess(inner)
                < enclosing[best].spec_excess(inner) {
                Some(enclosing.len() - 1)
            } else {
                Some(best)
            },
        }
    }
}

/// The best enclosing span is one of the spans, contains the instruction,
/// has the least excess of all that do, and is the first of that excess.
pub proof fn lemma_best_enclosing(enclosing: Seq<Span>, inner: Span)
    ensures
        match best_enclosing(enclosing, inner) {
            Some(best) => {
                &&& 0 <= best < enclosing.len()
                &&& enclosing[best].spec_contains(inner)
                &&& forall|j: int|
                    0 <= j < enclosing.len() && (#[trigger] enclosing[j]).spec_contains(inner)
                        ==> enclosing[best].spec_excess(inner) <= enclosing[j].spec_excess(inner)
                &&& forall|j: int|
                    0 <= j < best && (#[trigger] enclosing[j]).spec_contains(inner)
                        ==> enclosing[best].spec_excess(inner) < enclosing[j].spec_excess(inner)
            },
            None => forall|j: int|
                0 <= j < enclosing.len() ==> !(#[trigger] enclosing[j]).spec_contains(inner),
        },
    decreases enclosing.len(),
{
    if enclosing.len() > 0 {
        let front = enclosing.drop_last();
        lemma_best_enclosing(front, inner);
        assert forall|j: int| 0 <= j < front.len() implies front[j] == enclosing[j] by {}
    }
}

/// The span that stands for a point in the source, if it has one: its best
/// enclosing span, unless that span is empty.
pub open spec fn point_span(data: PointData) -> Option<Span> {
    match best_enclosing(data.enclosing@, data.span) {
        Some(best) => if data.enclosing@[best].lo == data.enclosing@[best].hi {
            None
        } else {
            Some(data.enclosing@[best])
        },
        None => None,
    }
}

/// The spans of a list of points, in the order of the points; a point
/// without a span adds nothing.
pub open spec fn spans_of_points(table: Seq<PointData>, points: Seq<Point>) -> Seq<Span>
    decreases points.len(),
{
    if points.len() == 0 {
        Seq::empty()
    } else {
        let front = spans_of_points(table, points.drop_last());
        match point_span(table[points.last() as int]) {
            Some(span) => front.push(span),
            None => front,
        }
    }
}

/// The points at which a loan is live, in the order of the liveness facts.
pub open spec fn live_points(live_at: Seq<(Point, Vec<Loan>)>, loan: Loan) -> Seq<Point>
    decreases live_at.len(),
{
    if live_at.len() == 0 {
        Seq::empty()
    } else {
        let front = live_points(live_at.drop_last(), loan);
        if live_at.last().1@.contains(loan) {
            front.push(live_at.last().0)
        } else {
            front
        }
    }
}

/// The spans of a list that start no earlier than `min` and end no later
/// than `max`.
pub open spec fn clipped(spans: Seq<Span>, min: Span, max: Span) -> Seq<Span>
    decreases spans.len(),
{
    if spans.len() == 0 {
        Seq::empty()
    } else {
        let front = clipped(spans.drop_last(), min, max);
        if min.lo <= spans.last().lo && spans.last().hi <= max.hi {
            front.push(spans.last())
        } else {
            front
        }
    }
}

/// Every point of the list is a point of the table.
pub open spec fn points_known(table: Seq<PointData>, points: Seq<Point>) -> bool {
    forall|i: int| 0 <= i < points.len() ==> (#[trigger] points[i]) < table.len()
}

impl PermissionsCtxt {
    /// The runs of source over which a loan is live, within the window from
    /// the start of `min` to the end of `max`: the spans of the points at
    /// which the loan is live, and the two bounds themselves, clipped to
    /// the window and smoothed.
    pub open spec fn loan_spans(&self, loan: Loan, min: Span, max: Span) -> Seq<Span> {
        smooth(
            clipped(
                spans_of_points(self.facts.points@, live_points(self.facts.loan_live_at@, loan)).push(
                    min,
                ).push(max),
                min,
                max,
            ),
        )
    }
}

/// The span that stands for a point in the source, if it has one.
fn point_to_span(data: &PointData) -> (r: Option<Span>)
    ensures
        r == point_span(*data),
        r matches Some(span) ==> span.spec_contains(data.span) && span.lo != span.hi,
{
    proof {
        lemma_best_enclosing(data.enclosing@, data.span);
    }
    let mut best: Option<usize> = None;
    let mut i: usize = 0;
    while i < data.enclosing.len()
        invariant
            i <= data.enclosing.len(),
            match best {
                Some(b) => best_enclosing(data.enclosing@.take(i as int), data.span) == Some(b as int)
                    && b < i && data.enclosing@[b as int].spec_contains(data.span),
                None => best_enclosing(data.enclosing@.take(i as int), data.span) is None,
            },
        decreases data.enclosing.len() - i,
    {
        let candidate = data.enclosing[i];
        proof {
            assert(data.enclosing@.take(i + 1).drop_last() == data.enclosing@.take(i as int));
        }
        if candidate.contains(data.span) {
            match best {
                None => {
                    best = Some(i);
                },
                Some(b) => {
                    assert(data.enclosing@.take(i + 1)[b as int] == data.enclosing@[b as int]);
                    if candidate.excess(data.span) < data.enclosing[b].excess(data.span) {
                        best = Some(i);
                    }
                },
            }
        } else {
            if let Some(b) = best {
                assert(data.enclosing@.take(i + 1)[b as int] == data.enclosing@[b as int]);
            }
        }
        i += 1;
    }
    assert(data.enclosing@.take(i as int) == data.enclosing@);
    match best {
        Some(b) => {
            let span = data.enclosing[b];
            if span.is_empty() {
                None
            } else {
                Some(span)
            }
        },
        None => None,
    }
}

/// The spans of a list of points, in the order of the points.
pub fn points_to_spans(ctxt: &PermissionsCtxt, points: &Vec<Point>) -> (spans: Vec<Span>)
    requires
        points_known(ctxt.facts.points@, points@),
    ensures
        spans@ == spans_of_points(ctxt.facts.points@, points@),
{
    let mut spans: Vec<Span> = Vec::new();
    let mut i: usize = 0;
    while i < points.len()
        invariant
            i <= points.len(),
            points_known(ctxt.facts.points@, points@),
            spans@ == spans_of_points(ctxt.facts.points@, points@.take(i as int)),
        decreases points.len() - i,
    {
        proof {
            assert(points@.take(i + 1).drop_last() == points@.take(i as int));
        }
        let point = points[i];
        match point_to_span(&ctxt.facts.points[point]) {
            Some(span) => {
                spans.push(span);
            },
            None => {},
        }
        i += 1;
    }
    assert(points@.take(i as int) == points@);
    spans
}

/// The points at which a loan is live.
fn points_of_loan(ctxt: &PermissionsCtxt, loan: Loan) -> (points: Vec<Point>)
    requires
        ctxt.facts.wf(),
    ensures
        points@ == live_points(ctxt.facts.loan_live_at@, loan),
        points_known(ctxt.facts.points@, points@),
{
    let mut points: Vec<Point> = Vec::new();
    let mut i: usize = 0;
    while i < ctxt.facts.loan_live_at.len()
        invariant
            i <= ctxt.facts.loan_live_at.len(),
            ctxt.facts.wf(),
            points@ == live_points(ctxt.facts.loan_live_at@.take(i as int), loan),
            points_known(ctxt.facts.points@, points@),
        decreases ctxt.facts.loan_live_at.len() - i,
    {
        proof {
            assert(ctxt.facts.loan_live_at@.take(i + 1).drop_last() == ctxt.facts.loan_live_at@.take(
                i as int,
            ));
        }
        if holds(&ctxt.facts.loan_live_at[i].1, loan) {
            points.push(ctxt.facts.loan_live_at[i].0);
        }
        i += 1;
    }
    assert(ctxt.facts.loan_live_at@.take(i as int) == ctxt.facts.loan_live_at@);
    points
}

/// The spans of a list within the window from the start of `min` to the end
/// of `max`.
fn clip_spans(spans: &Vec<Span>, min: Span, max: Span) -> (kept: Vec<Span>)
    ensures
        kept@ == clipped(spans@, min, max),
{
    let mut kept: Vec<Span> = Vec::new();
    let mut i: usize = 0;
    while i < spans.len()
        invariant
            i <= spans.len(),
            kept@ == clipped(spans@.take(i as int), min, max),
        decreases spans.len() - i,
    {
        proof {
            assert(spans@.take(i + 1).drop_last() == spans@.take(i as int));
        }
        let span = spans[i];
        if min.lo <= span.lo && span.hi <= max.hi {
            kept.push(span);
        }
        i += 1;
    }
    assert(spans@.take(i as int) == spans@);
    kept
}

/// The runs of source over which a loan is live, within the window from the
/// start of `min_span` to the end of `max_span`.
pub fn loan_to_spans(ctxt: &PermissionsCtxt, loan: Loan, min_span: Span, max_span: Span) -> (spans:
    Vec<Span>)
    requires
        ctxt.facts.wf(),
    ensures
        spans@ == ctxt.loan_spans(loan, min_span, max_span),
        separated(spans@),
        ordered_by_lo(spans@),
        all_within(spans@, min_span.lo, max_span.hi),
        min_span.wf() && max_span.wf() ==> all_wf(spans@) && apart(spans@),
{
    let points = points_of_loan(ctxt, loan);
    let mut loan_spans = points_to_spans(ctxt, &points);
    proof {
        lemma_spans_of_points_wf(ctxt.facts.points@, points@);
    }
    loan_spans.push(min_span);
    loan_spans.push(max_span);
    let ghost gathered = loan_spans@;
    let loan_spans = clip_spans(&loan_spans, min_span, max_span);
    proof {
        lemma_clipped(gathered, min_span, max_span);
        lemma_smooth_within(loan_spans@, min_span.lo, max_span.hi);
    }
    smooth_spans(loan_spans)
}

/// The spans of points are spans that enclose them, and end no earlier
/// than they start where the enclosing spans do.
pub proof fn lemma_spans_of_points_wf(table: Seq<PointData>, points: Seq<Point>)
    requires
        points_known(table, points),
        forall|p: int| 0 <= p < table.len() ==> all_wf((#[trigger] table[p]).enclosing@),
    ensures
        all_wf(spans_of_points(table, points)),
    decreases points.len(),
{
    if points.len() > 0 {
        let front = points.drop_last();
        assert forall|i: int| 0 <= i < front.len() implies (#[trigger] front[i]) < table.len() by {
            assert(front[i] == points[i]);
        }
        lemma_spans_of_points_wf(table, front);
        let data = table[points.last() as int];
        assert(points[points.len() - 1] < table.len());
        lemma_best_enclosing(data.enclosing@, data.span);
        assert(all_wf(data.enclosing@));
    }
}

/// What is left of a list within a window lies within the window, and ends
/// no earlier than it starts where the spans of the list do.
pub proof fn lemma_clipped(spans: Seq<Span>, min: Span, max: Span)
    ensures
        all_within(clipped(spans, min, max), min.lo, max.hi),
        all_wf(spans) ==> all_wf(clipped(spans, min, max)),
    decreases spans.len(),
{
    if spans.len() > 0 {
        let front = spans.drop_last();
        lemma_clipped(front, min, max);
        if all_wf(spans) {
            assert forall|i: int| 0 <= i < front.len() implies (#[trigger] front[i]).wf() by {
                assert(front[i] == spans[i]);
            }
            assert(spans[spans.len() - 1].wf());
        }
    }
}

/// The ranges are what `span_to_range` gives for the spans, one for one.
pub open spec fn ranges_of<F: Fn(Span) -> Range>(
    span_to_range: F,
    spans: Seq<Span>,
    ranges: Seq<Range>,
) -> bool {
    ranges.len() == spans.len() && forall|i: int|
        0 <= i < spans.len() ==> span_to_range.ensures((spans[i],), #[trigger] ranges[i])
}

impl PermissionsCtxt {
    /// Where a loan begins to refine: at the first point of its region, or
    /// where the borrow is taken if that stands earlier in the source.
    pub open spec fn region_start(&self, loan: Loan) -> Span {
        let data = self.facts.loans@[loan as int];
        let first = self.facts.points@[data.region.0 as int].span;
        if data.reserve_span.lo < first.lo {
            data.reserve_span
        } else {
            first
        }
    }

    /// Where a loan ceases to refine: at the last point of its region.
    pub open spec fn region_end(&self, loan: Loan) -> Span {
        self.facts.points@[self.facts.loans@[loan as int].region.1 as int].span
    }

    /// The region is the one of the loan, in the ranges that
    /// `span_to_range` gives: it names the place where the borrow is taken,
    /// begins and ends with the loan's region, and holds over the runs of
    /// source in which the loan is live between the two.
    pub open spec fn region_of<F: Fn(Span) -> Range>(
        &self,
        span_to_range: F,
        loan: Loan,
        region: RefinementRegion,
    ) -> bool {
        let start = self.region_start(loan);
        let end = self.region_end(loan);
        &&& region.refiner_point matches Refiner::Loan(at) && span_to_range.ensures(
            (self.facts.loans@[loan as int].reserve_span,),
            at,
        )
        &&& span_to_range.ensures((start,), region.start)
        &&& span_to_range.ensures((end,), region.end)
        &&& ranges_of(span_to_range, self.loan_spans(loan, start, end), region.refined_ranges@)
    }
}

/// The ranges of a list of spans.
fn spans_to_ranges<F: Fn(Span) -> Range + Copy>(spans: &Vec<Span>, span_to_range: F) -> (ranges: Vec<
    Range,
>)
    requires
        forall|s: Span| span_to_range.requires((s,)),
    ensures
        ranges_of(span_to_range, spans@, ranges@),
{
    let mut ranges: Vec<Range> = Vec::new();
    let mut i: usize = 0;
    while i < spans.len()
        invariant
            i <= spans.len(),
            forall|s: Span| span_to_range.requires((s,)),
            ranges_of(span_to_range, spans@.take(i as int), ranges@),
        decreases spans.len() - i,
    {
        let range = span_to_range(spans[i]);
        ranges.push(range);
        i += 1;
    }
    assert(spans@.take(i as int) == spans@);
    ranges
}

/// The region over which the loan that a table names for a path refines
/// it; none for a path that the table does not name.
pub fn find_loan_refinement<F: Fn(Span) -> Range + Copy>(
    ctxt: &PermissionsCtxt,
    path: Path,
    refined_by: &HashMap<Path, Loan>,
    span_to_range: F,
) -> (found: Option<RefinementRegion>)
    requires
        ctxt.facts.wf(),
        forall|s: Span| span_to_range.requires((s,)),
        refined_by@.contains_key(path) ==> refined_by@[path] < ctxt.facts.loans@.len(),
    ensures
        match found {
            Some(region) => refined_by@.contains_key(path) && ctxt.region_of(
                span_to_range,
                refined_by@[path],
                region,
            ),
            None => !refined_by@.contains_key(path),
        },
{
    match refined_by.get(&path) {
        Some(loan) => Some(loan_refinement(ctxt, *loan, span_to_range)),
        None => None,
    }
}

/// The region over which a loan refines.
pub fn loan_refinement<F: Fn(Span) -> Range + Copy>(
    ctxt: &PermissionsCtxt,
    loan: Loan,
    span_to_range: F,
) -> (region: RefinementRegion)
    requires
        ctxt.facts.wf(),
        forall|s: Span| span_to_range.requires((s,)),
        loan < ctxt.facts.loans@.len(),
    ensures
        ctxt.region_of(span_to_range, loan, region),
{
    let data = &ctxt.facts.loans[loan];
    let loan_span = data.reserve_span;
    let first_span = ctxt.facts.points[data.region.0].span;
    let end_span = ctxt.facts.points[data.region.1].span;
    let start_span = if loan_span.lo < first_span.lo {
        loan_span
    } else {
        first_span
    };
    let loan_location = span_to_range(loan_span);
    let start = span_to_range(start_span);
    let end = span_to_range(end_span);
    let active = loan_to_spans(ctxt, loan, start_span, end_span);
    let refined_ranges = spans_to_ranges(&active, span_to_range);
    RefinementRegion { refiner_point: Refiner::Loan(loan_location), refined_ranges, start, end }
}

} // verus!
