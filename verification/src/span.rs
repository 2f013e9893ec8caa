//! Source spans, display ranges, and the merging of spans into maximal runs.

use vstd::prelude::*;

verus! {

/// A half-open region `lo..hi` of source bytes.
#[derive(Clone, Copy, Debug, PartialEq, Eq, Hash, Structural)]
pub struct Span {
    pub lo: u32,
    pub hi: u32,
}

/// The position of a span as a front end shows it.
#[derive(Clone, Copy, Debug, PartialEq, Eq, Hash, Structural)]
pub struct Range {
    pub char_start: usize,
    pub char_end: usize,
    pub byte_start: usize,
    pub byte_end: usize,
    pub filename: usize,
}

/// Every span of the list ends no earlier than it starts.
pub open spec fn all_wf(spans: Seq<Span>) -> bool {
    forall|i: int| 0 <= i < spans.len() ==> (#[trigger] spans[i]).wf()
}

/// Every span of the list lies between the two offsets.
pub open spec fn all_within(spans: Seq<Span>, lo: u32, hi: u32) -> bool {
    forall|i: int| 0 <= i < spans.len() ==> lo <= (#[trigger] spans[i]).lo && spans[i].hi <= hi
}

/// No span of the list ends where another starts, and no two overlap.
pub open spec fn apart(spans: Seq<Span>) -> bool {
    forall|i: int, j: int|
        0 <= i < spans.len() && 0 <= j < spans.len() && i != j ==> (#[trigger] spans[i]).hi != (
        #[trigger] spans[j]).lo && !spans[i].spec_overlaps(spans[j])
}

impl Span {
    /// The span ends no earlier than it starts.
    pub open spec fn wf(self) -> bool {
        self.lo <= self.hi
    }

    /// Tests whether the span ends no earlier than it starts.
    pub fn is_well_formed(&self) -> (r: bool)
        ensures
            r == self.wf(),
    {
        self.lo <= self.hi
    }

    /// The span between two offsets, whichever of them is smaller.
    pub open spec fn spec_new(a: u32, b: u32) -> Span {
        if a <= b {
            Span { lo: a, hi: b }
        } else {
            Span { lo: b, hi: a }
        }
    }

    pub open spec fn spec_overlaps(self, other: Span) -> bool {
        self.lo < other.hi && other.lo < self.hi
    }

    pub open spec fn spec_contains(self, other: Span) -> bool {
        self.lo <= other.lo && other.hi <= self.hi
    }

    /// The smallest span that reaches from the start of the earlier of the
    /// two to the end of the later.
    pub open spec fn spec_to(self, end: Span) -> Span {
        Span {
            lo: if self.lo <= end.lo { self.lo } else { end.lo },
            hi: if self.hi >= end.hi { self.hi } else { end.hi },
        }
    }

    /// Source bytes of `self` that lie outside `inner`, counted on both sides.
    pub open spec fn spec_excess(self, inner: Span) -> int {
        (inner.lo - self.lo) + (self.hi - inner.hi)
    }

    pub fn new(a: u32, b: u32) -> (s: Span)
        ensures
            s == Span::spec_new(a, b),
            s.lo <= s.hi,
    {
        if a <= b {
            Span { lo: a, hi: b }
        } else {
            Span { lo: b, hi: a }
        }
    }

    pub fn lo(&self) -> (r: u32)
        ensures
            r == self.lo,
    {
        self.lo
    }

    pub fn hi(&self) -> (r: u32)
        ensures
            r == self.hi,
    {
        self.hi
    }

    pub fn is_empty(&self) -> (r: bool)
        ensures
            r == (self.lo == self.hi),
    {
        self.lo == self.hi
    }

    pub fn overlaps(&self, other: Span) -> (r: bool)
        ensures
            r == self.spec_overlaps(other),
    {
        self.lo < other.hi && other.lo < self.hi
    }

    pub fn contains(&self, other: Span) -> (r: bool)
        ensures
            r == self.spec_contains(other),
    {
        self.lo <= other.lo && other.hi <= self.hi
    }

    pub fn to(&self, end: Span) -> (r: Span)
        ensures
            r == self.spec_to(end),
    {
        Span {
            lo: if self.lo <= end.lo { self.lo } else { end.lo },
            hi: if self.hi >= end.hi { self.hi } else { end.hi },
        }
    }

    pub fn shrink_to_lo(&self) -> (r: Span)
        ensures
            r == (Span { lo: self.lo, hi: self.lo }),
    {
        Span { lo: self.lo, hi: self.lo }
    }

    pub fn shrink_to_hi(&self) -> (r: Span)
        ensures
            r == (Span { lo: self.hi, hi: self.hi }),
    {
        Span { lo: self.hi, hi: self.hi }
    }

    /// How much of `self` lies outside `inner`, for an `inner` that `self`
    /// contains.
    pub fn excess(&self, inner: Span) -> (r: u64)
        requires
            self.spec_contains(inner),
        ensures
            r == self.spec_excess(inner),
    {
        let before: u64 = (inner.lo - self.lo) as u64;
        let after: u64 = (self.hi - inner.hi) as u64;
        before + after
    }
}

/// Where a span that starts at `lo` goes into a list ordered by start:
/// behind the last span that starts no later.
pub open spec fn upper_bound(sorted: Seq<Span>, lo: u32) -> int
    decreases sorted.len(),
{
    if sorted.len() == 0 {
        0
    } else if sorted.last().lo <= lo {
        sorted.len() as int
    } else {
        upper_bound(sorted.drop_last(), lo)
    }
}

/// The spans ordered by start; spans with the same start keep their order.
pub open spec fn sort_by_lo(spans: Seq<Span>) -> Seq<Span>
    decreases spans.len(),
{
    if spans.len() == 0 {
        Seq::empty()
    } else {
        let front = sort_by_lo(spans.drop_last());
        front.insert(upper_bound(front, spans.last().lo), spans.last())
    }
}

/// The runs of a list ordered by start: a span whose start lies at or
/// before the end of the run so far is folded into that run, another span
/// starts a new run.
pub open spec fn merge_runs(sorted: Seq<Span>) -> Seq<Span>
    decreases sorted.len(),
{
    if sorted.len() == 0 {
        Seq::empty()
    } else {
        let front = merge_runs(sorted.drop_last());
        let next = sorted.last();
        if front.len() > 0 && front.last().hi >= next.lo {
            front.drop_last().push(front.last().spec_to(next))
        } else {
            front.push(next)
        }
    }
}

/// The maximal contiguous runs that the spans cover.
pub open spec fn smooth(spans: Seq<Span>) -> Seq<Span> {
    merge_runs(sort_by_lo(spans))
}

/// No span starts before one that stands earlier in the list.
pub open spec fn ordered_by_lo(spans: Seq<Span>) -> bool {
    forall|i: int, j: int| 0 <= i < j < spans.len() ==> (#[trigger] spans[i]).lo <= (#[trigger] spans[j]).lo
}

/// Each span ends before any later span of the list starts, so that no two
/// overlap or touch.
pub open spec fn separated(spans: Seq<Span>) -> bool {
    forall|i: int, j: int| 0 <= i < j < spans.len() ==> (#[trigger] spans[i]).hi < (#[trigger] spans[j]).lo
}

/// Some span of the list contains `span`.
pub open spec fn covered(spans: Seq<Span>, span: Span) -> bool {
    exists|j: int| 0 <= j < spans.len() && (#[trigger] spans[j]).spec_contains(span)
}

/// The spans ordered by start, spans with the same start in their order.
pub fn sort_spans(spans: &Vec<Span>) -> (sorted: Vec<Span>)
    ensures
        sorted@ == sort_by_lo(spans@),
{
    let mut sorted: Vec<Span> = Vec::new();
    let mut i: usize = 0;
    while i < spans.len()
        invariant
            i <= spans.len(),
            sorted@ == sort_by_lo(spans@.take(i as int)),
            sorted@.len() == i,
        decreases spans.len() - i,
    {
        let span = spans[i];
        let mut at: usize = sorted.len();
        assert(sorted@.take(at as int) == sorted@);
        while at > 0 && sorted[at - 1].lo > span.lo
            invariant
                at <= sorted@.len(),
                upper_bound(sorted@, span.lo) == upper_bound(sorted@.take(at as int), span.lo),
            decreases at,
        {
            assert(sorted@.take(at as int).drop_last() == sorted@.take(at - 1));
            at -= 1;
        }
        proof {
            assert(spans@.take(i + 1).drop_last() == spans@.take(i as int));
            assert(sorted@.take(sorted@.len() as int) == sorted@);
        }
        sorted.insert(at, span);
        i += 1;
    }
    assert(spans@.take(i as int) == spans@);
    sorted
}

/// Merges the spans into the maximal contiguous runs that they cover: the
/// spans are ordered by start, and each one that starts at or before the end
/// of the run so far is folded into it.
pub fn smooth_spans(spans: Vec<Span>) -> (smoothed: Vec<Span>)
    ensures
        smoothed@ == smooth(spans@),
        separated(smoothed@),
        ordered_by_lo(smoothed@),
        forall|k: int| 0 <= k < spans@.len() ==> covered(smoothed@, #[trigger] spans@[k]),
        all_wf(spans@) ==> all_wf(smoothed@) && apart(smoothed@),
{
    proof {
        lemma_smooth_separated(spans@);
        lemma_smooth_covers(spans@);
        if all_wf(spans@) {
            lemma_smooth_apart(spans@);
        }
    }
    if spans.len() == 0 {
        return spans;
    }
    let sorted = sort_spans(&spans);
    proof {
        lemma_sort_by_lo_len(spans@);
    }
    let mut smoothed: Vec<Span> = Vec::new();
    let mut acc = sorted[0];
    assert(sorted@.take(1).drop_last() == Seq::<Span>::empty());
    assert(merge_runs(sorted@.take(1).drop_last()) == Seq::<Span>::empty());
    assert(merge_runs(sorted@.take(1)) == smoothed@.push(acc));
    let mut i: usize = 1;
    while i < sorted.len()
        invariant
            1 <= i <= sorted.len(),
            merge_runs(sorted@.take(i as int)) == smoothed@.push(acc),
        decreases sorted.len() - i,
    {
        let span = sorted[i];
        proof {
            assert(sorted@.take(i + 1).drop_last() == sorted@.take(i as int));
            assert(smoothed@.push(acc).drop_last() == smoothed@);
        }
        if acc.hi >= span.lo {
            acc = acc.to(span);
        } else {
            smoothed.push(acc);
            acc = span;
        }
        i += 1;
    }
    assert(sorted@.take(i as int) == sorted@);
    smoothed.push(acc);
    smoothed
}

/// Ordering keeps the number of spans.
pub proof fn lemma_sort_by_lo_len(spans: Seq<Span>)
    ensures
        sort_by_lo(spans).len() == spans.len(),
    decreases spans.len(),
{
    if spans.len() > 0 {
        lemma_sort_by_lo_len(spans.drop_last());
        lemma_upper_bound_range(sort_by_lo(spans.drop_last()), spans.last().lo);
    }
}

/// The place of insertion lies within the list; the spans before it start
/// no later than `lo` where the list is ordered, the spans from it on start
/// later.
pub proof fn lemma_upper_bound_range(sorted: Seq<Span>, lo: u32)
    ensures
        0 <= upper_bound(sorted, lo) <= sorted.len(),
        forall|k: int| upper_bound(sorted, lo) <= k < sorted.len() ==> (#[trigger] sorted[k]).lo > lo,
        upper_bound(sorted, lo) > 0 ==> sorted[upper_bound(sorted, lo) - 1].lo <= lo,
    decreases sorted.len(),
{
    if sorted.len() > 0 && sorted.last().lo > lo {
        lemma_upper_bound_range(sorted.drop_last(), lo);
        assert forall|k: int| upper_bound(sorted, lo) <= k < sorted.len() implies (#[trigger] sorted[k]).lo
            > lo by {
            if k < sorted.len() - 1 {
                assert(sorted.drop_last()[k] == sorted[k]);
            }
        }
    }
}

/// Ordering by start gives a list that is ordered by start and holds the
/// same spans.
pub proof fn lemma_sort_by_lo_ordered(spans: Seq<Span>)
    ensures
        ordered_by_lo(sort_by_lo(spans)),
        forall|x: Span| #[trigger] sort_by_lo(spans).contains(x) <==> spans.contains(x),
    decreases spans.len(),
{
    if spans.len() > 0 {
        let front_in = spans.drop_last();
        let last = spans.last();
        let front = sort_by_lo(front_in);
        let at = upper_bound(front, last.lo);
        let out = front.insert(at, last);
        lemma_sort_by_lo_ordered(front_in);
        lemma_upper_bound_range(front, last.lo);
        assert forall|i: int, j: int| 0 <= i < j < out.len() implies (#[trigger] out[i]).lo <= (
        #[trigger] out[j]).lo by {
            if at > 0 {
                assert(front[at - 1].lo <= last.lo);
            }
            if j < at {
                assert(out[i] == front[i] && out[j] == front[j]);
            } else if j == at {
                assert(out[i] == front[i]);
                if i < at - 1 {
                    assert(front[i].lo <= front[at - 1].lo);
                }
            } else if i < at {
                assert(out[i] == front[i] && out[j] == front[j - 1]);
            } else if i == at {
                assert(out[j] == front[j - 1]);
            } else {
                assert(out[i] == front[i - 1] && out[j] == front[j - 1]);
            }
        }
        assert forall|x: Span| #[trigger] out.contains(x) <==> spans.contains(x) by {
            assert(spans == front_in.push(last));
            if out.contains(x) {
                let k = choose|k: int| 0 <= k < out.len() && out[k] == x;
                if k < at {
                    assert(front[k] == x);
                } else if k > at {
                    assert(front[k - 1] == x);
                }
                if front.contains(x) {
                    let m = choose|m: int| 0 <= m < front_in.len() && front_in[m] == x;
                    assert(spans[m] == x);
                } else {
                    assert(spans[spans.len() - 1] == x);
                }
            }
            if spans.contains(x) {
                let k = choose|k: int| 0 <= k < spans.len() && spans[k] == x;
                if k < front_in.len() {
                    assert(front_in[k] == x);
                    assert(front.contains(x));
                    let m = choose|m: int| 0 <= m < front.len() && front[m] == x;
                    if m < at {
                        assert(out[m] == x);
                    } else {
                        assert(out[m + 1] == x);
                    }
                } else {
                    assert(out[at] == x);
                }
            }
        }
    }
}

/// The runs of an ordered list are ordered and separated, none starts later
/// than the last span of the list, and each span of the list lies in a run.
pub proof fn lemma_merge_runs(sorted: Seq<Span>)
    requires
        ordered_by_lo(sorted),
    ensures
        ordered_by_lo(merge_runs(sorted)),
        separated(merge_runs(sorted)),
        merge_runs(sorted).len() <= sorted.len(),
        sorted.len() > 0 ==> merge_runs(sorted).len() > 0,
        forall|k: int|
            0 <= k < merge_runs(sorted).len() ==> (#[trigger] merge_runs(sorted)[k]).lo
                <= sorted.last().lo,
        forall|k: int| 0 <= k < sorted.len() ==> covered(merge_runs(sorted), #[trigger] sorted[k]),
    decreases sorted.len(),
{
    if sorted.len() > 0 {
        let front_in = sorted.drop_last();
        let next = sorted.last();
        let front = merge_runs(front_in);
        let out = merge_runs(sorted);
        assert forall|i: int, j: int| 0 <= i < j < front_in.len() implies (#[trigger] front_in[i]).lo <= (
        #[trigger] front_in[j]).lo by {
            assert(front_in[i] == sorted[i] && front_in[j] == sorted[j]);
        }
        lemma_merge_runs(front_in);
        if front_in.len() > 0 {
            assert(front_in.last() == sorted[sorted.len() - 2]);
            assert(sorted[sorted.len() - 2].lo <= sorted[sorted.len() - 1].lo);
        }
        let merged = front.len() > 0 && front.last().hi >= next.lo;
        assert forall|k: int| 0 <= k < out.len() implies (#[trigger] out[k]).lo <= next.lo by {
            if k < front.len() {
                assert(front[k].lo <= front_in.last().lo);
            }
        }
        assert forall|i: int, j: int| 0 <= i < j < out.len() implies (#[trigger] out[i]).lo <= (
        #[trigger] out[j]).lo && out[i].hi < out[j].lo by {
            assert(front[i].lo <= front_in.last().lo);
            if merged {
                assert(front.last().lo <= front_in.last().lo);
                if j < out.len() - 1 {
                    assert(out[i] == front[i] && out[j] == front[j]);
                } else {
                    assert(out[i] == front[i]);
                    assert(front[i].hi < front[front.len() - 1].lo);
                    assert(front[i].lo <= front[front.len() - 1].lo);
                }
            } else {
                if j < out.len() - 1 {
                    assert(out[i] == front[i] && out[j] == front[j]);
                } else {
                    assert(out[i] == front[i]);
                    if i < front.len() - 1 {
                        assert(front[i].hi < front[front.len() - 1].lo);
                    }
                    assert(front[front.len() - 1].lo <= front_in.last().lo);
                }
            }
        }
        assert forall|k: int| 0 <= k < sorted.len() implies covered(out, #[trigger] sorted[k]) by {
            if k < front_in.len() {
                assert(front_in[k] == sorted[k]);
                assert(covered(front, front_in[k]));
                let j = choose|j: int| 0 <= j < front.len() && (#[trigger] front[j]).spec_contains(sorted[k]);
                if merged && j == front.len() - 1 {
                    assert(out[j].spec_contains(sorted[k]));
                } else {
                    assert(out[j] == front[j]);
                }
            } else {
                assert(out[out.len() - 1].spec_contains(sorted[k]));
            }
        }
    }
}

/// Smoothing gives runs in ascending order that neither overlap nor touch.
pub proof fn lemma_smooth_separated(spans: Seq<Span>)
    ensures
        ordered_by_lo(smooth(spans)),
        separated(smooth(spans)),
{
    lemma_sort_by_lo_ordered(spans);
    lemma_merge_runs(sort_by_lo(spans));
}

/// Smoothing drops nothing: each span lies within one of the runs.
pub proof fn lemma_smooth_covers(spans: Seq<Span>)
    ensures
        forall|k: int| 0 <= k < spans.len() ==> covered(smooth(spans), #[trigger] spans[k]),
{
    lemma_sort_by_lo_ordered(spans);
    let sorted = sort_by_lo(spans);
    lemma_merge_runs(sorted);
    assert forall|k: int| 0 <= k < spans.len() implies covered(smooth(spans), #[trigger] spans[k]) by {
        assert(spans.contains(spans[k]));
        assert(sorted.contains(spans[k]));
        let m = choose|m: int| 0 <= m < sorted.len() && sorted[m] == spans[k];
        assert(covered(merge_runs(sorted), sorted[m]));
    }
}

/// An ordered list is its own ordering.
pub proof fn lemma_sort_by_lo_fixed(spans: Seq<Span>)
    requires
        ordered_by_lo(spans),
    ensures
        sort_by_lo(spans) == spans,
    decreases spans.len(),
{
    if spans.len() > 0 {
        let front = spans.drop_last();
        assert forall|i: int, j: int| 0 <= i < j < front.len() implies (#[trigger] front[i]).lo <= (
        #[trigger] front[j]).lo by {
            assert(front[i] == spans[i] && front[j] == spans[j]);
        }
        lemma_sort_by_lo_fixed(front);
        if front.len() > 0 {
            assert(front.last() == spans[spans.len() - 2]);
            assert(spans[spans.len() - 2].lo <= spans[spans.len() - 1].lo);
        }
        assert(front.insert(front.len() as int, spans.last()) =~= spans);
    } else {
        assert(sort_by_lo(spans) =~= spans);
    }
}

/// A separated list is its own list of runs.
pub proof fn lemma_merge_runs_fixed(spans: Seq<Span>)
    requires
        separated(spans),
    ensures
        merge_runs(spans) == spans,
    decreases spans.len(),
{
    if spans.len() > 0 {
        let front = spans.drop_last();
        assert forall|i: int, j: int| 0 <= i < j < front.len() implies (#[trigger] front[i]).hi < (
        #[trigger] front[j]).lo by {
            assert(front[i] == spans[i] && front[j] == spans[j]);
        }
        lemma_merge_runs_fixed(front);
        if front.len() > 0 {
            assert(front.last() == spans[spans.len() - 2]);
            assert(spans[spans.len() - 2].hi < spans[spans.len() - 1].lo);
        }
        assert(front.push(spans.last()) =~= spans);
    } else {
        assert(merge_runs(spans) =~= spans);
    }
}

/// Smoothing is idempotent: the runs of the runs are the runs.
pub proof fn lemma_smooth_idempotent(spans: Seq<Span>)
    ensures
        smooth(smooth(spans)) == smooth(spans),
{
    lemma_smooth_separated(spans);
    lemma_sort_by_lo_fixed(smooth(spans));
    lemma_merge_runs_fixed(smooth(spans));
}

/// The runs of spans that lie between two offsets lie between them.
pub proof fn lemma_merge_runs_within(sorted: Seq<Span>, lo: u32, hi: u32)
    requires
        all_within(sorted, lo, hi),
    ensures
        all_within(merge_runs(sorted), lo, hi),
    decreases sorted.len(),
{
    if sorted.len() > 0 {
        let front_in = sorted.drop_last();
        assert forall|i: int| 0 <= i < front_in.len() implies lo <= (#[trigger] front_in[i]).lo
            && front_in[i].hi <= hi by {
            assert(front_in[i] == sorted[i]);
        }
        lemma_merge_runs_within(front_in, lo, hi);
        let front = merge_runs(front_in);
        let out = merge_runs(sorted);
        assert(lo <= sorted[sorted.len() - 1].lo && sorted[sorted.len() - 1].hi <= hi);
        assert forall|i: int| 0 <= i < out.len() implies lo <= (#[trigger] out[i]).lo && out[i].hi
            <= hi by {
            if i < front.len() {
                assert(lo <= front[i].lo && front[i].hi <= hi);
            }
        }
    }
}

/// The runs of spans that end no earlier than they start do so too.
pub proof fn lemma_merge_runs_wf(sorted: Seq<Span>)
    requires
        all_wf(sorted),
    ensures
        all_wf(merge_runs(sorted)),
    decreases sorted.len(),
{
    if sorted.len() > 0 {
        let front_in = sorted.drop_last();
        assert forall|i: int| 0 <= i < front_in.len() implies (#[trigger] front_in[i]).wf() by {
            assert(front_in[i] == sorted[i]);
        }
        lemma_merge_runs_wf(front_in);
        let front = merge_runs(front_in);
        let out = merge_runs(sorted);
        assert(sorted[sorted.len() - 1].wf());
        assert forall|i: int| 0 <= i < out.len() implies (#[trigger] out[i]).wf() by {
            if i < front.len() {
                assert(front[i].wf());
            }
        }
    }
}

/// Smoothing keeps to the bounds of its spans: where every span lies
/// between two offsets, every run does.
pub proof fn lemma_smooth_within(spans: Seq<Span>, lo: u32, hi: u32)
    requires
        all_within(spans, lo, hi),
    ensures
        all_within(smooth(spans), lo, hi),
{
    lemma_sort_by_lo_ordered(spans);
    let sorted = sort_by_lo(spans);
    assert forall|i: int| 0 <= i < sorted.len() implies lo <= (#[trigger] sorted[i]).lo && sorted[i].hi
        <= hi by {
        assert(sorted.contains(sorted[i]));
        let k = choose|k: int| 0 <= k < spans.len() && spans[k] == sorted[i];
        assert(lo <= spans[k].lo);
    }
    lemma_merge_runs_within(sorted, lo, hi);
}

/// The runs of spans that end no earlier than they start do so too, and no
/// run ends where another starts or overlaps another: each is a maximal
/// contiguous run.
pub proof fn lemma_smooth_apart(spans: Seq<Span>)
    requires
        all_wf(spans),
    ensures
        all_wf(smooth(spans)),
        apart(smooth(spans)),
{
    lemma_sort_by_lo_ordered(spans);
    let sorted = sort_by_lo(spans);
    assert forall|i: int| 0 <= i < sorted.len() implies (#[trigger] sorted[i]).wf() by {
        assert(sorted.contains(sorted[i]));
        let k = choose|k: int| 0 <= k < spans.len() && spans[k] == sorted[i];
        assert(spans[k].wf());
    }
    lemma_merge_runs_wf(sorted);
    lemma_smooth_separated(spans);
    let out = smooth(spans);
    assert forall|i: int, j: int| 0 <= i < out.len() && 0 <= j < out.len() && i != j implies (
    #[trigger] out[i]).hi != (#[trigger] out[j]).lo && !out[i].spec_overlaps(out[j]) by {
        assert(out[i].wf() && out[j].wf());
        if i < j {
            assert(out[i].hi < out[j].lo);
        } else {
            assert(out[j].hi < out[i].lo);
        }
    }
}

} // verus!
