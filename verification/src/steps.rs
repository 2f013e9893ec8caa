//! The permission steps of a function body: the settled differences, put
//! at the ends of their lines and named as the source names them.

use crate::context::PermissionsCtxt;
use crate::flow::{find_span, position_of, HirPermDiffFlow, Scope, ScopeView};
use crate::place::{Local, Path, Place, PlaceData, PlaceElem, Pointer};
use crate::span::{Range, Span};
use crate::stepper::{PermIncludeMode, PermissionsDataDiff};
use crate::visit::Node;
use vstd::prelude::*;
use vstd::string::StringExecFns;

verus! {

/// What changes at one place of the source: the place, and for each path
/// that is shown there, by its name, how what is known of it changes.
#[derive(Clone, Debug, PartialEq, Eq)]
pub struct PermissionsStateStep {
    pub location: Range,
    pub state: Vec<(String, PermissionsDataDiff)>,
}

/// The steps of a walk that met syntax which it does not support: the steps
/// that were settled before.
#[derive(Debug, PartialEq, Eq)]
pub struct Incomplete {
    pub steps: Vec<PermissionsStateStep>,
}

/// The least of the offsets that lies at or behind `pos`.
pub open spec fn nearest_end(ends: Seq<u32>, pos: u32) -> Option<u32>
    decreases ends.len(),
{
    if ends.len() == 0 {
        None
    } else {
        let last = ends.last();
        match nearest_end(ends.drop_last(), pos) {
            None => if last >= pos {
                Some(last)
            } else {
                None
            },
            Some(best) => if last >= pos && last < best {
                Some(last)
            } else {
                Some(best)
            },
        }
    }
}

/// The nearest end is an end at or behind the position, and no end lies
/// between the two.
pub proof fn lemma_nearest_end(ends: Seq<u32>, pos: u32)
    ensures
        match nearest_end(ends, pos) {
            Some(best) => ends.contains(best) && best >= pos && forall|k: int|
                0 <= k < ends.len() && (#[trigger] ends[k]) >= pos ==> best <= ends[k],
            None => forall|k: int| 0 <= k < ends.len() ==> (#[trigger] ends[k]) < pos,
        },
    decreases ends.len(),
{
    if ends.len() > 0 {
        let front = ends.drop_last();
        lemma_nearest_end(front, pos);
        assert forall|k: int| 0 <= k < front.len() implies front[k] == ends[k] by {}
        match nearest_end(front, pos) {
            Some(best) => {
                let i = choose|i: int| 0 <= i < front.len() && front[i] == best;
                assert(ends[i] == best);
                assert(ends[ends.len() - 1] == ends.last());
            },
            None => {
                assert(ends[ends.len() - 1] == ends.last());
            },
        }
    }
}

/// Where a step is shown: at the end of the line in which the span ends.
/// `line_ends` holds the offsets at which the lines of the source end; a
/// span behind the last of them is shown at its own end.
pub open spec fn anchor(line_ends: Seq<u32>, span: Span) -> Span {
    match nearest_end(line_ends, span.hi) {
        Some(end) => Span { lo: end, hi: end },
        None => Span { lo: span.hi, hi: span.hi },
    }
}

/// The entries of a scope whose path the source can name.
pub open spec fn visible(places: Seq<PlaceData>, scope: ScopeView) -> ScopeView
    decreases scope.len(),
{
    if scope.len() == 0 {
        Seq::empty()
    } else {
        let front = visible(places, scope.drop_last());
        if scope.last().0 < places.len() && places[scope.last().0 as int].source_visible {
            front.push(scope.last())
        } else {
            front
        }
    }
}

/// The groups with entries added at an anchor: behind the entries that the
/// anchor has, or as a new group behind the others.
pub open spec fn appended(groups: Seq<(Span, ScopeView)>, at: Span, entries: ScopeView) -> Seq<
    (Span, ScopeView),
> {
    match find_span(groups, at, 0) {
        Some(i) => groups.update(i, (at, groups[i].1 + entries)),
        None => groups.push((at, entries)),
    }
}

/// Whether a step at an anchor is left out: it lies behind the first error
/// of the function, where the capabilities are no longer reliable.
pub open spec fn past_error(first_error: Option<Span>, at: Span) -> bool {
    match first_error {
        Some(error) => error.hi < at.lo,
        None => false,
    }
}

/// The settled differences by the line at whose end they are shown: of each
/// scope the entries that the source can name, under the anchor of the
/// scope's span; nothing for a scope without such entries, nor behind the
/// first error.
pub open spec fn grouped(
    places: Seq<PlaceData>,
    line_ends: Seq<u32>,
    first_error: Option<Span>,
    diff: Seq<(Span, ScopeView)>,
) -> Seq<(Span, ScopeView)>
    decreases diff.len(),
{
    if diff.len() == 0 {
        Seq::empty()
    } else {
        let front = grouped(places, line_ends, first_error, diff.drop_last());
        let at = anchor(line_ends, diff.last().0);
        let entries = visible(places, diff.last().1);
        if entries.len() == 0 || past_error(first_error, at) {
            front
        } else {
            appended(front, at, entries)
        }
    }
}

/// The rank of a projection among the projections: dereferences first,
/// then fields, indices and downcasts, each kind by its number.
pub open spec fn elem_rank(elem: PlaceElem) -> (int, int) {
    match elem {
        PlaceElem::Deref(Pointer::SharedRef) => (0, 0),
        PlaceElem::Deref(Pointer::MutRef) => (0, 1),
        PlaceElem::Deref(Pointer::Other) => (0, 2),
        PlaceElem::Field(i) => (1, i as int),
        PlaceElem::Index(i) => (2, i as int),
        PlaceElem::Downcast(i) => (3, i as int),
    }
}

/// The first projection ranks before the second.
pub open spec fn elem_before(a: PlaceElem, b: PlaceElem) -> bool {
    elem_rank(a).0 < elem_rank(b).0 || (elem_rank(a).0 == elem_rank(b).0 && elem_rank(a).1
        < elem_rank(b).1)
}

/// From `from` on, the first list of projections does not come behind the
/// second: at the first place where they differ the first list ends or has
/// the lesser projection.
pub open spec fn projection_not_behind(a: Seq<PlaceElem>, b: Seq<PlaceElem>, from: int) -> bool
    decreases a.len() - from,
{
    if from < 0 || from >= a.len() {
        true
    } else if from >= b.len() {
        false
    } else if a[from] == b[from] {
        projection_not_behind(a, b, from + 1)
    } else {
        elem_before(a[from], b[from])
    }
}

/// The first place does not come behind the second: by the local, then by
/// the projections.
pub open spec fn place_not_behind(a: (Local, Seq<PlaceElem>), b: (Local, Seq<PlaceElem>)) -> bool {
    a.0 < b.0 || (a.0 == b.0 && projection_not_behind(a.1, b.1, 0))
}

/// Where an entry goes into a list ordered by place: behind the last entry
/// whose place does not come behind its own.
pub open spec fn entry_bound(places: Seq<PlaceData>, sorted: ScopeView, path: Path) -> int
    decreases sorted.len(),
{
    if sorted.len() == 0 {
        0
    } else if place_not_behind(places[sorted.last().0 as int].place@, places[path as int].place@) {
        sorted.len() as int
    } else {
        entry_bound(places, sorted.drop_last(), path)
    }
}

/// The entries ordered by place; entries of the same place keep their
/// order.
pub open spec fn ordered(places: Seq<PlaceData>, entries: ScopeView) -> ScopeView
    decreases entries.len(),
{
    if entries.len() == 0 {
        Seq::empty()
    } else {
        let front = ordered(places, entries.drop_last());
        front.insert(entry_bound(places, front, entries.last().0), entries.last())
    }
}

/// The name under which a path is shown: its own, or `<var>` where it has
/// none.
pub open spec fn shown_name(data: PlaceData) -> Seq<char> {
    match data.name {
        Some(name) => name@,
        None => "<var>"@,
    }
}

/// The entries by name.
pub open spec fn named(places: Seq<PlaceData>, entries: ScopeView) -> Seq<
    (Seq<char>, PermissionsDataDiff),
> {
    Seq::new(entries.len(), |i: int| (shown_name(places[entries[i].0 as int]), entries[i].1))
}

/// What a step states, with the names as texts.
pub open spec fn state_view(state: Seq<(String, PermissionsDataDiff)>) -> Seq<
    (Seq<char>, PermissionsDataDiff),
> {
    Seq::new(state.len(), |i: int| (state[i].0@, state[i].1))
}

/// The step shows a group: it lies where `span_to_range` puts the group's
/// anchor, and states the group's entries by name, in the order of their
/// places.
pub open spec fn shows<F: Fn(Span) -> Range>(
    span_to_range: F,
    places: Seq<PlaceData>,
    group: (Span, ScopeView),
    step: PermissionsStateStep,
) -> bool {
    span_to_range.ensures((group.0,), step.location) && state_view(step.state@) == named(
        places,
        ordered(places, group.1),
    )
}

/// The steps show the groups, one for one.
pub open spec fn show_all<F: Fn(Span) -> Range>(
    span_to_range: F,
    places: Seq<PlaceData>,
    groups: Seq<(Span, ScopeView)>,
    steps: Seq<PermissionsStateStep>,
) -> bool {
    steps.len() == groups.len() && forall|k: int|
        0 <= k < groups.len() ==> shows(span_to_range, places, groups[k], #[trigger] steps[k])
}

/// Every entry names an interned path.
pub open spec fn paths_known(places: Seq<PlaceData>, entries: ScopeView) -> bool {
    forall|i: int| 0 <= i < entries.len() ==> (#[trigger] entries[i]).0 < places.len()
}

/// The entries that the source can name are entries of interned paths.
pub proof fn lemma_visible_known(places: Seq<PlaceData>, scope: ScopeView)
    ensures
        paths_known(places, visible(places, scope)),
    decreases scope.len(),
{
    if scope.len() > 0 {
        lemma_visible_known(places, scope.drop_last());
    }
}

/// The offset at which a step for a position is shown.
fn line_end(line_ends: &Vec<u32>, pos: u32) -> (end: u32)
    ensures
        end == match nearest_end(line_ends@, pos) {
            Some(best) => best,
            None => pos,
        },
        end >= pos,
{
    proof {
        lemma_nearest_end(line_ends@, pos);
    }
    let mut best: Option<u32> = None;
    let mut i: usize = 0;
    while i < line_ends.len()
        invariant
            i <= line_ends.len(),
            best == nearest_end(line_ends@.take(i as int), pos),
        decreases line_ends.len() - i,
    {
        proof {
            assert(line_ends@.take(i + 1).drop_last() == line_ends@.take(i as int));
        }
        let candidate = line_ends[i];
        if candidate >= pos {
            match best {
                None => {
                    best = Some(candidate);
                },
                Some(b) => {
                    if candidate < b {
                        best = Some(candidate);
                    }
                },
            }
        }
        i += 1;
    }
    assert(line_ends@.take(i as int) == line_ends@);
    match best {
        Some(b) => b,
        None => pos,
    }
}

/// The entries of a scope whose path the source can name.
fn visible_entries(ctxt: &PermissionsCtxt, scope: &Scope) -> (entries: Scope)
    ensures
        entries@ == visible(ctxt.places@, scope@),
{
    let mut entries: Scope = Vec::new();
    let mut i: usize = 0;
    while i < scope.len()
        invariant
            i <= scope.len(),
            entries@ == visible(ctxt.places@, scope@.take(i as int)),
        decreases scope.len() - i,
    {
        proof {
            assert(scope@.take(i + 1).drop_last() == scope@.take(i as int));
        }
        let entry = scope[i];
        if entry.0 < ctxt.places.len() && ctxt.places.get(entry.0).source_visible {
            entries.push(entry);
        }
        i += 1;
    }
    assert(scope@.take(i as int) == scope@);
    entries
}

/// Whether the first projection ranks before the second.
fn is_elem_before(a: PlaceElem, b: PlaceElem) -> (r: bool)
    ensures
        r == elem_before(a, b),
{
    let (kind_a, number_a): (u8, usize) = match a {
        PlaceElem::Deref(Pointer::SharedRef) => (0, 0),
        PlaceElem::Deref(Pointer::MutRef) => (0, 1),
        PlaceElem::Deref(Pointer::Other) => (0, 2),
        PlaceElem::Field(i) => (1, i),
        PlaceElem::Index(i) => (2, i),
        PlaceElem::Downcast(i) => (3, i),
    };
    let (kind_b, number_b): (u8, usize) = match b {
        PlaceElem::Deref(Pointer::SharedRef) => (0, 0),
        PlaceElem::Deref(Pointer::MutRef) => (0, 1),
        PlaceElem::Deref(Pointer::Other) => (0, 2),
        PlaceElem::Field(i) => (1, i),
        PlaceElem::Index(i) => (2, i),
        PlaceElem::Downcast(i) => (3, i),
    };
    kind_a < kind_b || (kind_a == kind_b && number_a < number_b)
}

/// Whether the first place does not come behind the second.
pub fn is_place_not_behind(a: &Place, b: &Place) -> (r: bool)
    ensures
        r == place_not_behind(a@, b@),
{
    if a.local != b.local {
        return a.local < b.local;
    }
    let mut i: usize = 0;
    while i < a.projection.len()
        invariant
            i <= a.projection.len(),
            a.local == b.local,
            projection_not_behind(a.projection@, b.projection@, 0) == projection_not_behind(
                a.projection@,
                b.projection@,
                i as int,
            ),
        decreases a.projection.len() - i,
    {
        if i >= b.projection.len() {
            return false;
        }
        if a.projection[i] != b.projection[i] {
            return is_elem_before(a.projection[i], b.projection[i]);
        }
        i += 1;
    }
    true
}

/// The entries ordered by place; entries of the same place keep their
/// order.
fn sort_entries(ctxt: &PermissionsCtxt, entries: &Scope) -> (sorted: Scope)
    requires
        paths_known(ctxt.places@, entries@),
    ensures
        sorted@ == ordered(ctxt.places@, entries@),
{
    let mut sorted: Scope = Vec::new();
    let mut i: usize = 0;
    while i < entries.len()
        invariant
            i <= entries.len(),
            paths_known(ctxt.places@, entries@),
            paths_known(ctxt.places@, sorted@),
            sorted@ == ordered(ctxt.places@, entries@.take(i as int)),
        decreases entries.len() - i,
    {
        let entry = entries[i];
        let place = ctxt.places.path_to_place(entry.0);
        let mut at: usize = sorted.len();
        assert(sorted@.take(at as int) == sorted@);
        while at > 0 && !is_place_not_behind(ctxt.places.path_to_place(sorted[at - 1].0), place)
            invariant
                at <= sorted@.len(),
                paths_known(ctxt.places@, sorted@),
                entry.0 < ctxt.places@.len(),
                *place == ctxt.places@[entry.0 as int].place,
                entry_bound(ctxt.places@, sorted@, entry.0) == entry_bound(
                    ctxt.places@,
                    sorted@.take(at as int),
                    entry.0,
                ),
            decreases at,
        {
            assert(sorted@.take(at as int).drop_last() == sorted@.take(at - 1));
            at -= 1;
        }
        proof {
            assert(entries@.take(i + 1).drop_last() == entries@.take(i as int));
        }
        sorted.insert(at, entry);
        i += 1;
    }
    assert(entries@.take(i as int) == entries@);
    sorted
}

/// The entries by name.
fn name_entries(ctxt: &PermissionsCtxt, entries: &Scope) -> (state: Vec<(String, PermissionsDataDiff)>)
    requires
        paths_known(ctxt.places@, entries@),
    ensures
        state_view(state@) == named(ctxt.places@, entries@),
{
    let mut state: Vec<(String, PermissionsDataDiff)> = Vec::new();
    let mut i: usize = 0;
    while i < entries.len()
        invariant
            i <= entries.len(),
            paths_known(ctxt.places@, entries@),
            state@.len() == i,
            forall|k: int|
                0 <= k < i ==> (#[trigger] state@[k]).0@ == shown_name(
                    ctxt.places@[entries@[k].0 as int],
                ) && state@[k].1 == entries@[k].1,
        decreases entries.len() - i,
    {
        let entry = entries[i];
        let name = match &ctxt.places.get(entry.0).name {
            Some(name) => name.clone(),
            None => String::from_str("<var>"),
        };
        state.push((name, entry.1));
        i += 1;
    }
    assert(state_view(state@) =~= named(ctxt.places@, entries@));
    state
}

/// Adds entries to the groups at an anchor.
fn append_group(groups: &mut Vec<(Span, Scope)>, at: Span, entries: Scope)
    ensures
        crate::flow::steps_view(final(groups)@) == appended(
            crate::flow::steps_view(old(groups)@),
            at,
            entries@,
        ),
{
    let ghost before = crate::flow::steps_view(groups@);
    match position_of(groups, at) {
        Some(i) => {
            let found = groups.remove(i);
            let mut all = found.1;
            let ghost had = all@;
            let mut k: usize = 0;
            while k < entries.len()
                invariant
                    k <= entries.len(),
                    all@ == had + entries@.take(k as int),
                decreases entries.len() - k,
            {
                all.push(entries[k]);
                assert(all@ =~= had + entries@.take(k + 1));
                k += 1;
            }
            assert(entries@.take(k as int) == entries@);
            let ghost all_view = all@;
            groups.insert(i, (at, all));
            assert(crate::flow::steps_view(groups@) =~= before.update(i as int, (at, all_view)));
        },
        None => {
            groups.push((at, entries));
            assert(crate::flow::steps_view(groups@) =~= before.push((at, entries@)));
        },
    }
}

/// The settled differences by the line at whose end they are shown.
fn group_steps(
    ctxt: &PermissionsCtxt,
    perm_steps: &Vec<(Span, Scope)>,
    first_error: Option<Span>,
    line_ends: &Vec<u32>,
) -> (groups: Vec<(Span, Scope)>)
    ensures
        crate::flow::steps_view(groups@) == grouped(
            ctxt.places@,
            line_ends@,
            first_error,
            crate::flow::steps_view(perm_steps@),
        ),
{
    let ghost all = crate::flow::steps_view(perm_steps@);
    let mut groups: Vec<(Span, Scope)> = Vec::new();
    assert(crate::flow::steps_view(groups@) =~= Seq::empty());
    let mut i: usize = 0;
    while i < perm_steps.len()
        invariant
            i <= perm_steps.len(),
            all == crate::flow::steps_view(perm_steps@),
            crate::flow::steps_view(groups@) == grouped(
                ctxt.places@,
                line_ends@,
                first_error,
                all.take(i as int),
            ),
        decreases perm_steps.len() - i,
    {
        proof {
            assert(all.take(i + 1).drop_last() == all.take(i as int));
            assert(all.take(i + 1).last() == (perm_steps@[i as int].0, perm_steps@[i as int].1@));
        }
        let span = perm_steps[i].0;
        let end = line_end(line_ends, span.hi);
        let at = Span { lo: end, hi: end };
        let entries = visible_entries(ctxt, &perm_steps[i].1);
        let late = match first_error {
            Some(error) => error.hi < at.lo,
            None => false,
        };
        if !(entries.len() == 0 || late) {
            append_group(&mut groups, at, entries);
        }
        i += 1;
    }
    assert(all.take(i as int) == all);
    groups
}

/// Every group holds entries of interned paths only.
pub proof fn lemma_grouped_known(
    places: Seq<PlaceData>,
    line_ends: Seq<u32>,
    first_error: Option<Span>,
    diff: Seq<(Span, ScopeView)>,
)
    ensures
        forall|k: int|
            0 <= k < grouped(places, line_ends, first_error, diff).len() ==> paths_known(
                places,
                (#[trigger] grouped(places, line_ends, first_error, diff)[k]).1,
            ),
    decreases diff.len(),
{
    if diff.len() > 0 {
        let front = grouped(places, line_ends, first_error, diff.drop_last());
        let at = anchor(line_ends, diff.last().0);
        let entries = visible(places, diff.last().1);
        lemma_grouped_known(places, line_ends, first_error, diff.drop_last());
        lemma_visible_known(places, diff.last().1);
        let out = grouped(places, line_ends, first_error, diff);
        if !(entries.len() == 0 || past_error(first_error, at)) {
            crate::flow::lemma_find_span(front, at, 0);
            assert forall|k: int| 0 <= k < out.len() implies paths_known(places, (#[trigger] out[k]).1) by {
                match find_span(front, at, 0) {
                    Some(i) => {
                        if k == i {
                            assert(paths_known(places, front[i].1));
                            assert forall|m: int| 0 <= m < out[k].1.len() implies (#[trigger] out[k].1[m]).0
                                < places.len() by {
                                if m < front[i].1.len() {
                                    assert(out[k].1[m] == front[i].1[m]);
                                } else {
                                    assert(out[k].1[m] == entries[m - front[i].1.len()]);
                                }
                            }
                        } else {
                            assert(out[k] == front[k]);
                        }
                    },
                    None => {
                        if k < front.len() {
                            assert(out[k] == front[k]);
                        }
                    },
                }
            }
        }
    }
}

/// Makes the steps of the settled differences: the entries that the source
/// can name, gathered at the ends of their lines, none behind the first
/// error; each step in the range of its line end, its entries in the order
/// of their places and under their names.
pub fn prettify_permission_steps<F: Fn(Span) -> Range + Copy>(
    ctxt: &PermissionsCtxt,
    perm_steps: &Vec<(Span, Scope)>,
    first_error: Option<Span>,
    line_ends: &Vec<u32>,
    span_to_range: F,
) -> (steps: Vec<PermissionsStateStep>)
    requires
        forall|s: Span| span_to_range.requires((s,)),
    ensures
        show_all(
            span_to_range,
            ctxt.places@,
            grouped(ctxt.places@, line_ends@, first_error, crate::flow::steps_view(perm_steps@)),
            steps@,
        ),
{
    let groups = group_steps(ctxt, perm_steps, first_error, line_ends);
    let ghost shown = crate::flow::steps_view(groups@);
    proof {
        lemma_grouped_known(
            ctxt.places@,
            line_ends@,
            first_error,
            crate::flow::steps_view(perm_steps@),
        );
    }
    let mut steps: Vec<PermissionsStateStep> = Vec::new();
    let mut i: usize = 0;
    while i < groups.len()
        invariant
            i <= groups.len(),
            shown == crate::flow::steps_view(groups@),
            forall|s: Span| span_to_range.requires((s,)),
            forall|k: int| 0 <= k < shown.len() ==> paths_known(ctxt.places@, (#[trigger] shown[k]).1),
            steps@.len() == i,
            forall|k: int|
                0 <= k < i ==> shows(span_to_range, ctxt.places@, shown[k], #[trigger] steps@[k]),
        decreases groups.len() - i,
    {
        let range = span_to_range(groups[i].0);
        proof {
            assert(shown[i as int] == (groups@[i as int].0, groups@[i as int].1@));
            assert(paths_known(ctxt.places@, shown[i as int].1));
        }
        let entries = sort_entries(ctxt, &groups[i].1);
        proof {
            lemma_ordered_known(ctxt.places@, groups@[i as int].1@);
        }
        let state = name_entries(ctxt, &entries);
        steps.push(PermissionsStateStep { location: range, state });
        i += 1;
    }
    steps
}

/// Ordering keeps the entries, and so the paths that they name.
pub proof fn lemma_ordered_known(places: Seq<PlaceData>, entries: ScopeView)
    requires
        paths_known(places, entries),
    ensures
        paths_known(places, ordered(places, entries)),
        ordered(places, entries).len() == entries.len(),
    decreases entries.len(),
{
    if entries.len() > 0 {
        let front_in = entries.drop_last();
        assert forall|i: int| 0 <= i < front_in.len() implies (#[trigger] front_in[i]).0
            < places.len() by {
            assert(front_in[i] == entries[i]);
        }
        lemma_ordered_known(places, front_in);
        let front = ordered(places, front_in);
        let at = entry_bound(places, front, entries.last().0);
        lemma_entry_bound(places, front, entries.last().0);
        let out = front.insert(at, entries.last());
        assert forall|i: int| 0 <= i < out.len() implies (#[trigger] out[i]).0 < places.len() by {
            if i < at {
                assert(out[i] == front[i]);
            } else if i == at {
                assert(out[i] == entries[entries.len() - 1]);
            } else {
                assert(out[i] == front[i - 1]);
            }
        }
    }
}

/// The place of insertion lies within the list.
pub proof fn lemma_entry_bound(places: Seq<PlaceData>, sorted: ScopeView, path: Path)
    ensures
        0 <= entry_bound(places, sorted, path) <= sorted.len(),
    decreases sorted.len(),
{
    if sorted.len() > 0 {
        lemma_entry_bound(places, sorted.drop_last(), path);
    }
}

/// The permission steps of a function body: the walk over its syntax tree
/// in the mode given, made into steps. A walk that meets a `let` with an
/// `else` stops there and gives the steps that were settled before.
pub fn compute_permission_steps<F: Fn(Span) -> Range + Copy>(
    ctxt: &PermissionsCtxt,
    body: &Node,
    mode: PermIncludeMode,
    first_error: Option<Span>,
    line_ends: &Vec<u32>,
    span_to_range: F,
) -> (result: Result<Vec<PermissionsStateStep>, Incomplete>)
    requires
        ctxt.facts.wf(),
        body.known(ctxt.facts.points@.len() as int),
        forall|s: Span| span_to_range.requires((s,)),
    ensures
        match result {
            Ok(steps) => !ctxt.traversed(mode, *body).unsupported && show_all(
                span_to_range,
                ctxt.places@,
                grouped(ctxt.places@, line_ends@, first_error, ctxt.traversed(mode, *body).diff),
                steps@,
            ),
            Err(partial) => ctxt.traversed(mode, *body).unsupported && show_all(
                span_to_range,
                ctxt.places@,
                grouped(ctxt.places@, line_ends@, first_error, ctxt.traversed(mode, *body).diff),
                partial.steps@,
            ),
        },
{
    let mut hir_visitor = HirPermDiffFlow::new(mode);
    hir_visitor.visit_body(ctxt, body);
    let steps = prettify_permission_steps(
        ctxt,
        &hir_visitor.diff,
        first_error,
        line_ends,
        span_to_range,
    );
    if hir_visitor.unsupported {
        Err(Incomplete { steps })
    } else {
        Ok(steps)
    }
}

/// Two projections of the same rank are the same projection.
pub proof fn lemma_elem_rank(a: PlaceElem, b: PlaceElem)
    ensures
        elem_rank(a) == elem_rank(b) ==> a == b,
        a != b ==> elem_before(a, b) || elem_before(b, a),
        !(elem_before(a, b) && elem_before(b, a)),
{
}

/// Of two lists of projections one does not come behind the other.
pub proof fn lemma_projection_total(a: Seq<PlaceElem>, b: Seq<PlaceElem>, from: int)
    requires
        0 <= from,
    ensures
        projection_not_behind(a, b, from) || projection_not_behind(b, a, from),
    decreases a.len() - from,
{
    if from < a.len() && from < b.len() {
        if a[from] == b[from] {
            lemma_projection_total(a, b, from + 1);
        } else {
            lemma_elem_rank(a[from], b[from]);
        }
    }
}

/// The order of lists of projections is transitive.
pub proof fn lemma_projection_transitive(
    a: Seq<PlaceElem>,
    b: Seq<PlaceElem>,
    c: Seq<PlaceElem>,
    from: int,
)
    requires
        0 <= from,
        projection_not_behind(a, b, from),
        projection_not_behind(b, c, from),
    ensures
        projection_not_behind(a, c, from),
    decreases a.len() - from,
{
    if from < a.len() {
        assert(from < b.len());
        assert(from < c.len());
        if a[from] == b[from] && b[from] == c[from] {
            lemma_projection_transitive(a, b, c, from + 1);
        } else {
            lemma_elem_rank(a[from], b[from]);
            lemma_elem_rank(b[from], c[from]);
            lemma_elem_rank(a[from], c[from]);
        }
    }
}

/// The order of places is total and transitive.
pub proof fn lemma_place_order(
    a: (Local, Seq<PlaceElem>),
    b: (Local, Seq<PlaceElem>),
    c: (Local, Seq<PlaceElem>),
)
    ensures
        place_not_behind(a, b) || place_not_behind(b, a),
        place_not_behind(a, b) && place_not_behind(b, c) ==> place_not_behind(a, c),
{
    lemma_projection_total(a.1, b.1, 0);
    if place_not_behind(a, b) && place_not_behind(b, c) && a.0 == b.0 && b.0 == c.0 {
        lemma_projection_transitive(a.1, b.1, c.1, 0);
    }
}

/// No entry of the list names a place that comes behind the place of a
/// later entry.
pub open spec fn ascending(places: Seq<PlaceData>, entries: ScopeView) -> bool {
    forall|i: int, j: int|
        0 <= i < j < entries.len() ==> place_not_behind(
            places[(#[trigger] entries[i]).0 as int].place@,
            places[(#[trigger] entries[j]).0 as int].place@,
        )
}

/// In a list that ascends, the entries before the place of insertion name
/// places that do not come behind the place of the path, and the entries
/// from it on name places that the place of the path does not come behind.
pub proof fn lemma_entry_bound_split(places: Seq<PlaceData>, sorted: ScopeView, path: Path)
    requires
        ascending(places, sorted),
    ensures
        0 <= entry_bound(places, sorted, path) <= sorted.len(),
        forall|k: int|
            0 <= k < entry_bound(places, sorted, path) ==> place_not_behind(
                places[(#[trigger] sorted[k]).0 as int].place@,
                places[path as int].place@,
            ),
        forall|k: int|
            entry_bound(places, sorted, path) <= k < sorted.len() ==> place_not_behind(
                places[path as int].place@,
                places[(#[trigger] sorted[k]).0 as int].place@,
            ),
    decreases sorted.len(),
{
    if sorted.len() > 0 {
        let target = places[path as int].place@;
        let last = places[sorted.last().0 as int].place@;
        if place_not_behind(last, target) {
            assert forall|k: int| 0 <= k < sorted.len() implies place_not_behind(
                places[(#[trigger] sorted[k]).0 as int].place@,
                target,
            ) by {
                if k < sorted.len() - 1 {
                    assert(place_not_behind(
                        places[sorted[k].0 as int].place@,
                        places[sorted[sorted.len() - 1].0 as int].place@,
                    ));
                    lemma_place_order(places[sorted[k].0 as int].place@, last, target);
                }
            }
        } else {
            let front = sorted.drop_last();
            assert forall|i: int, j: int| 0 <= i < j < front.len() implies place_not_behind(
                places[(#[trigger] front[i]).0 as int].place@,
                places[(#[trigger] front[j]).0 as int].place@,
            ) by {
                assert(front[i] == sorted[i] && front[j] == sorted[j]);
            }
            lemma_entry_bound_split(places, front, path);
            lemma_place_order(last, target, target);
            assert forall|k: int|
                entry_bound(places, sorted, path) <= k < sorted.len() implies place_not_behind(
                target,
                places[(#[trigger] sorted[k]).0 as int].place@,
            ) by {
                if k < sorted.len() - 1 {
                    assert(front[k] == sorted[k]);
                }
            }
            assert forall|k: int| 0 <= k < entry_bound(places, sorted, path) implies place_not_behind(
                places[(#[trigger] sorted[k]).0 as int].place@,
                target,
            ) by {
                assert(front[k] == sorted[k]);
            }
        }
    }
}

/// Ordering gives the same entries, each as often as before, in an order
/// in which no place comes behind a later one.
pub proof fn lemma_ordered(places: Seq<PlaceData>, entries: ScopeView)
    ensures
        ascending(places, ordered(places, entries)),
        ordered(places, entries).to_multiset() == entries.to_multiset(),
        ordered(places, entries).len() == entries.len(),
    decreases entries.len(),
{
    broadcast use vstd::seq_lib::to_multiset_insert, vstd::seq_lib::to_multiset_build;

    if entries.len() > 0 {
        let front_in = entries.drop_last();
        let last = entries.last();
        lemma_ordered(places, front_in);
        let front = ordered(places, front_in);
        let at = entry_bound(places, front, last.0);
        lemma_entry_bound_split(places, front, last.0);
        let out = front.insert(at, last);
        assert(entries == front_in.push(last));
        assert(out.to_multiset() == front.to_multiset().insert(last));
        assert(entries.to_multiset() == front_in.to_multiset().insert(last));
        assert forall|i: int, j: int| 0 <= i < j < out.len() implies place_not_behind(
            places[(#[trigger] out[i]).0 as int].place@,
            places[(#[trigger] out[j]).0 as int].place@,
        ) by {
            if j < at {
                assert(out[i] == front[i] && out[j] == front[j]);
            } else if j == at {
                assert(out[i] == front[i]);
            } else if i < at {
                assert(out[i] == front[i] && out[j] == front[j - 1]);
            } else if i == at {
                assert(out[j] == front[j - 1]);
            } else {
                assert(out[i] == front[i - 1] && out[j] == front[j - 1]);
            }
        }
    } else {
        assert(ordered(places, entries) =~= entries);
    }
}

/// No two groups are shown at the same place.
pub open spec fn distinct_anchors(groups: Seq<(Span, ScopeView)>) -> bool {
    forall|i: int, j: int|
        0 <= i < j < groups.len() ==> (#[trigger] groups[i]).0 != (#[trigger] groups[j]).0
}

/// The group that is shown at `at` holds each of the entries.
pub open spec fn group_holds(groups: Seq<(Span, ScopeView)>, at: Span, entries: ScopeView) -> bool {
    exists|k: int|
        0 <= k < groups.len() && (#[trigger] groups[k]).0 == at && forall|m: int|
            0 <= m < entries.len() ==> groups[k].1.contains(#[trigger] entries[m])
}

/// Adding entries at an anchor keeps the anchors distinct and the entries
/// that the groups hold, and puts the new entries into the group of the
/// anchor.
pub proof fn lemma_appended(
    groups: Seq<(Span, ScopeView)>,
    at: Span,
    entries: ScopeView,
    held_at: Span,
    held: ScopeView,
)
    requires
        distinct_anchors(groups),
    ensures
        distinct_anchors(appended(groups, at, entries)),
        group_holds(appended(groups, at, entries), at, entries),
        group_holds(groups, held_at, held) ==> group_holds(appended(groups, at, entries), held_at, held),
{
    crate::flow::lemma_find_span(groups, at, 0);
    let out = appended(groups, at, entries);
    match find_span(groups, at, 0) {
        Some(i) => {
            assert forall|a: int, b: int| 0 <= a < b < out.len() implies (#[trigger] out[a]).0 != (
            #[trigger] out[b]).0 by {
                assert(out[a].0 == groups[a].0 && out[b].0 == groups[b].0);
            }
            assert forall|m: int| 0 <= m < entries.len() implies out[i].1.contains(
                #[trigger] entries[m],
            ) by {
                assert(out[i].1[groups[i].1.len() + m] == entries[m]);
            }
            assert(out[i].0 == at);
            if group_holds(groups, held_at, held) {
                let k = choose|k: int|
                    0 <= k < groups.len() && (#[trigger] groups[k]).0 == held_at && forall|m: int|
                        0 <= m < held.len() ==> groups[k].1.contains(#[trigger] held[m]);
                assert forall|m: int| 0 <= m < held.len() implies out[k].1.contains(
                    #[trigger] held[m],
                ) by {
                    assert(groups[k].1.contains(held[m]));
                    let n = choose|n: int| 0 <= n < groups[k].1.len() && groups[k].1[n] == held[m];
                    if k == i {
                        assert(out[k].1[n] == held[m]);
                    } else {
                        assert(out[k] == groups[k]);
                    }
                }
                assert(out[k].0 == held_at);
            }
        },
        None => {
            assert forall|a: int, b: int| 0 <= a < b < out.len() implies (#[trigger] out[a]).0 != (
            #[trigger] out[b]).0 by {
                if b < groups.len() {
                    assert(out[a] == groups[a] && out[b] == groups[b]);
                } else {
                    assert(out[a] == groups[a]);
                    assert(groups[a].0 != at);
                }
            }
            let last = out.len() - 1;
            assert(out[last].0 == at);
            assert forall|m: int| 0 <= m < entries.len() implies out[last].1.contains(
                #[trigger] entries[m],
            ) by {
                assert(out[last].1[m] == entries[m]);
            }
            if group_holds(groups, held_at, held) {
                let k = choose|k: int|
                    0 <= k < groups.len() && (#[trigger] groups[k]).0 == held_at && forall|m: int|
                        0 <= m < held.len() ==> groups[k].1.contains(#[trigger] held[m]);
                assert(out[k] == groups[k]);
            }
        },
    }
}

/// The groups are shown at pairwise distinct places, and nothing that is
/// to be shown is lost: a settled scope that has entries which the source
/// can name, and whose line end does not lie behind the first error, has
/// these entries in the group at its line end.
pub proof fn lemma_grouped(
    places: Seq<PlaceData>,
    line_ends: Seq<u32>,
    first_error: Option<Span>,
    diff: Seq<(Span, ScopeView)>,
)
    ensures
        distinct_anchors(grouped(places, line_ends, first_error, diff)),
        forall|i: int|
            0 <= i < diff.len() && visible(places, (#[trigger] diff[i]).1).len() > 0 && !past_error(
                first_error,
                anchor(line_ends, diff[i].0),
            ) ==> group_holds(
                grouped(places, line_ends, first_error, diff),
                anchor(line_ends, diff[i].0),
                visible(places, diff[i].1),
            ),
    decreases diff.len(),
{
    if diff.len() > 0 {
        let rest = diff.drop_last();
        let front = grouped(places, line_ends, first_error, rest);
        let at = anchor(line_ends, diff.last().0);
        let entries = visible(places, diff.last().1);
        let out = grouped(places, line_ends, first_error, diff);
        lemma_grouped(places, line_ends, first_error, rest);
        let added = !(entries.len() == 0 || past_error(first_error, at));
        if added {
            lemma_appended(front, at, entries, at, entries);
        }
        assert forall|i: int|
            0 <= i < diff.len() && visible(places, (#[trigger] diff[i]).1).len() > 0 && !past_error(
                first_error,
                anchor(line_ends, diff[i].0),
            ) implies group_holds(
            out,
            anchor(line_ends, diff[i].0),
            visible(places, diff[i].1),
        ) by {
            if i < rest.len() {
                assert(rest[i] == diff[i]);
                if added {
                    lemma_appended(
                        front,
                        at,
                        entries,
                        anchor(line_ends, diff[i].0),
                        visible(places, diff[i].1),
                    );
                }
            }
        }
    }
}

} // verus!
