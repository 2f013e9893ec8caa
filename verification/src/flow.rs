//! The state of the walk over a function's syntax tree: the scopes that are
//! open, the bindings that are held back, and the steps that are settled.

use crate::context::PermissionsCtxt;
use crate::facts::holds;
use crate::place::{Local, Path, PlaceData};
use crate::span::Span;
use crate::stepper::{PermIncludeMode, PermissionsDataDiff, ValueStep};
use vstd::prelude::*;

verus! {

/// The pending differences of one syntax node, by path.
pub type Scope = Vec<(Path, PermissionsDataDiff)>;

/// A scope as a list of paths with their differences.
pub type ScopeView = Seq<(Path, PermissionsDataDiff)>;

/// The walk over a syntax tree.
#[derive(Debug)]
pub struct HirPermDiffFlow {
    pub mode: PermIncludeMode,
    /// The differences that are settled, by the span that they are attached
    /// to; each span once.
    pub diff: Vec<(Span, Scope)>,
    /// The locals whose changes no scope may take that is opened now.
    pub step_barriers: Vec<Local>,
    /// The scopes of the nodes that are open, the outermost first.
    pub visibility_scopes: Vec<Scope>,
    /// The walk met syntax that it does not support, and has stopped.
    pub unsupported: bool,
}

/// The state of a walk.
pub struct FlowView {
    pub mode: PermIncludeMode,
    pub diff: Seq<(Span, ScopeView)>,
    pub barriers: Seq<Local>,
    pub scopes: Seq<ScopeView>,
    pub unsupported: bool,
}

/// The scopes of a list as lists of entries.
pub open spec fn scopes_view(scopes: Seq<Scope>) -> Seq<ScopeView> {
    Seq::new(scopes.len(), |i: int| scopes[i]@)
}

/// The settled differences of a list, each scope as a list of entries.
pub open spec fn steps_view(diff: Seq<(Span, Scope)>) -> Seq<(Span, ScopeView)> {
    Seq::new(diff.len(), |i: int| (diff[i].0, diff[i].1@))
}

impl View for HirPermDiffFlow {
    type V = FlowView;

    open spec fn view(&self) -> FlowView {
        FlowView {
            mode: self.mode,
            diff: steps_view(self.diff@),
            barriers: self.step_barriers@,
            scopes: scopes_view(self.visibility_scopes@),
            unsupported: self.unsupported,
        }
    }
}

/// Whether a scope holds a difference for the path.
pub open spec fn has_path(scope: ScopeView, path: Path) -> bool {
    exists|i: int| 0 <= i < scope.len() && (#[trigger] scope[i]).0 == path
}

/// Whether a difference is shown: not that of a path that has just died,
/// and, where only changes are shown, not one that leaves the capabilities
/// as they are.
pub open spec fn shown(mode: PermIncludeMode, diff: PermissionsDataDiff) -> bool {
    !(diff.is_live is Low || (mode == PermIncludeMode::Changes && diff.unchanged()))
}

/// Whether an entry stays in a scope that is opened: its difference is
/// shown, and no barrier holds its local back. A path that is not interned
/// does not stay.
pub open spec fn stays(
    places: Seq<PlaceData>,
    mode: PermIncludeMode,
    barriers: Seq<Local>,
    entry: (Path, PermissionsDataDiff),
) -> bool {
    entry.0 < places.len() && shown(mode, entry.1) && !barriers.contains(
        places[entry.0 as int].place.local,
    )
}

/// The entries of a scope that stay when it is opened.
pub open spec fn kept(
    places: Seq<PlaceData>,
    mode: PermIncludeMode,
    barriers: Seq<Local>,
    scope: ScopeView,
) -> ScopeView
    decreases scope.len(),
{
    if scope.len() == 0 {
        Seq::empty()
    } else {
        let front = kept(places, mode, barriers, scope.drop_last());
        if stays(places, mode, barriers, scope.last()) {
            front.push(scope.last())
        } else {
            front
        }
    }
}

/// The entries of a scope whose path `claimed` does not hold.
pub open spec fn shed(scope: ScopeView, claimed: ScopeView) -> ScopeView
    decreases scope.len(),
{
    if scope.len() == 0 {
        Seq::empty()
    } else {
        let front = shed(scope.drop_last(), claimed);
        if has_path(claimed, scope.last().0) {
            front
        } else {
            front.push(scope.last())
        }
    }
}

/// A scope with the entries of another added; for a path of both the added
/// entry counts.
pub open spec fn extended(base: ScopeView, extra: ScopeView) -> ScopeView {
    shed(base, extra) + extra
}

/// Whether some entry of the settled differences is attached to the span.
pub open spec fn attached(diff: Seq<(Span, ScopeView)>, span: Span) -> bool {
    exists|i: int| 0 <= i < diff.len() && (#[trigger] diff[i]).0 == span
}

/// From `from` on, the first entry of the settled differences that is
/// attached to the span.
pub open spec fn find_span(diff: Seq<(Span, ScopeView)>, span: Span, from: int) -> Option<int>
    decreases diff.len() - from,
{
    if from < 0 || from >= diff.len() {
        None
    } else if diff[from].0 == span {
        Some(from)
    } else {
        find_span(diff, span, from + 1)
    }
}

/// The settled differences with a scope added under a span: the entry of
/// the span is extended, or a new entry is made behind the others.
pub open spec fn committed(diff: Seq<(Span, ScopeView)>, span: Span, scope: ScopeView) -> Seq<
    (Span, ScopeView),
> {
    match find_span(diff, span, 0) {
        Some(at) => diff.update(at, (span, extended(diff[at].1, scope))),
        None => diff.push((span, scope)),
    }
}

/// The settled differences with a scope put under a span: it takes the
/// place of what the span had, or a new entry is made behind the others.
pub open spec fn replaced(diff: Seq<(Span, ScopeView)>, span: Span, scope: ScopeView) -> Seq<
    (Span, ScopeView),
> {
    match find_span(diff, span, 0) {
        Some(at) => diff.update(at, (span, scope)),
        None => diff.push((span, scope)),
    }
}

/// No path has a difference in two of the scopes.
pub open spec fn exclusive(scopes: Seq<ScopeView>) -> bool {
    forall|i: int, j: int, path: Path|
        0 <= i < j < scopes.len() ==> !(#[trigger] has_path(scopes[i], path) && #[trigger] has_path(
            scopes[j],
            path,
        ))
}

/// The scopes with each one shed of what a new scope holds.
pub open spec fn shed_all(scopes: Seq<ScopeView>, claimed: ScopeView) -> Seq<ScopeView> {
    Seq::new(scopes.len(), |i: int| shed(scopes[i], claimed))
}

impl FlowView {
    /// The state when a node is entered whose execution makes the
    /// differences `here`: the differences that stay make a new scope, and
    /// every scope that is open sheds the paths of the new one.
    pub open spec fn open(self, places: Seq<PlaceData>, here: ScopeView) -> FlowView {
        if self.unsupported {
            self
        } else {
            let scope = kept(places, self.mode, self.barriers, here);
            FlowView { scopes: shed_all(self.scopes, scope).push(scope), ..self }
        }
    }

    /// The state when the node that opened the innermost scope is left:
    /// what is left of the scope is settled under the node's span.
    pub open spec fn close(self, span: Span) -> FlowView {
        if self.unsupported || self.scopes.len() == 0 {
            self
        } else {
            FlowView {
                scopes: self.scopes.drop_last(),
                diff: committed(self.diff, span, self.scopes.last()),
                ..self
            }
        }
    }

    /// The state with one more barrier.
    pub open spec fn hold_back(self, local: Local) -> FlowView {
        if self.unsupported {
            self
        } else {
            FlowView { barriers: self.barriers.push(local), ..self }
        }
    }

    /// The state without its last barrier.
    pub open spec fn release(self) -> FlowView {
        if self.unsupported || self.barriers.len() == 0 {
            self
        } else {
            FlowView { barriers: self.barriers.drop_last(), ..self }
        }
    }

    /// The state of a walk that has stopped.
    pub open spec fn stopped(self) -> FlowView {
        FlowView { unsupported: true, ..self }
    }
}

/// Shedding keeps only entries of the scope, and none of a path that is
/// claimed.
pub proof fn lemma_shed(scope: ScopeView, claimed: ScopeView, path: Path)
    ensures
        has_path(shed(scope, claimed), path) <==> has_path(scope, path) && !has_path(claimed, path),
    decreases scope.len(),
{
    if scope.len() > 0 {
        let front = scope.drop_last();
        let last = scope.last();
        lemma_shed(front, claimed, path);
        let out = shed(scope, claimed);
        if has_path(front, path) {
            let i = choose|i: int| 0 <= i < front.len() && (#[trigger] front[i]).0 == path;
            assert(scope[i].0 == path);
        }
        if has_path(scope, path) {
            let i = choose|i: int| 0 <= i < scope.len() && (#[trigger] scope[i]).0 == path;
            if i < front.len() {
                assert(front[i].0 == path);
            }
        }
        if has_path(out, path) {
            let i = choose|i: int| 0 <= i < out.len() && (#[trigger] out[i]).0 == path;
            if i < shed(front, claimed).len() {
                assert(shed(front, claimed)[i].0 == path);
            } else {
                assert(scope[scope.len() - 1].0 == path);
            }
        }
        if has_path(shed(front, claimed), path) {
            let i = choose|i: int|
                0 <= i < shed(front, claimed).len() && (#[trigger] shed(front, claimed)[i]).0 == path;
            assert(out[i].0 == path);
        }
        if last.0 == path && !has_path(claimed, path) {
            assert(out[out.len() - 1].0 == path);
            assert(scope[scope.len() - 1].0 == path);
        }
    }
}

/// Opening a scope keeps the scopes exclusive: the scopes that were open
/// hold no path of the new one, which takes precedence.
pub proof fn lemma_open_exclusive(state: FlowView, places: Seq<PlaceData>, here: ScopeView)
    requires
        exclusive(state.scopes),
    ensures
        exclusive(state.open(places, here).scopes),
{
    if !state.unsupported {
        let scope = kept(places, state.mode, state.barriers, here);
        let after = state.open(places, here).scopes;
        assert forall|i: int, j: int, path: Path| 0 <= i < j < after.len() implies !(#[trigger] has_path(
            after[i],
            path,
        ) && #[trigger] has_path(after[j], path)) by {
            lemma_shed(state.scopes[i], scope, path);
            if j < state.scopes.len() {
                lemma_shed(state.scopes[j], scope, path);
                assert(!(has_path(state.scopes[i], path) && has_path(state.scopes[j], path)));
            }
        }
    }
}

/// Closing a scope keeps the scopes exclusive.
pub proof fn lemma_close_exclusive(state: FlowView, span: Span)
    requires
        exclusive(state.scopes),
    ensures
        exclusive(state.close(span).scopes),
{
    let after = state.close(span).scopes;
    assert forall|i: int, j: int, path: Path| 0 <= i < j < after.len() implies !(#[trigger] has_path(
        after[i],
        path,
    ) && #[trigger] has_path(after[j], path)) by {
        assert(after[i] == state.scopes[i] && after[j] == state.scopes[j]);
    }
}

/// An entry that is found is attached to the span, and none before it is.
pub proof fn lemma_find_span(diff: Seq<(Span, ScopeView)>, span: Span, from: int)
    requires
        0 <= from,
    ensures
        match find_span(diff, span, from) {
            Some(at) => from <= at < diff.len() && diff[at].0 == span && forall|k: int|
                from <= k < at ==> (#[trigger] diff[k]).0 != span,
            None => forall|k: int| from <= k < diff.len() ==> (#[trigger] diff[k]).0 != span,
        },
    decreases diff.len() - from,
{
    if from < diff.len() && diff[from].0 != span {
        lemma_find_span(diff, span, from + 1);
    }
}

/// Whether a scope holds a difference for the path.
pub fn contains_path(scope: &Scope, path: Path) -> (r: bool)
    ensures
        r == has_path(scope@, path),
{
    let mut i: usize = 0;
    while i < scope.len()
        invariant
            i <= scope.len(),
            forall|k: int| 0 <= k < i ==> (#[trigger] scope@[k]).0 != path,
        decreases scope.len() - i,
    {
        if scope[i].0 == path {
            return true;
        }
        i += 1;
    }
    false
}

/// The entries of a scope whose path `claimed` does not hold.
pub fn shed_scope(scope: &Scope, claimed: &Scope) -> (left: Scope)
    ensures
        left@ == shed(scope@, claimed@),
{
    let mut left: Scope = Vec::new();
    let mut i: usize = 0;
    while i < scope.len()
        invariant
            i <= scope.len(),
            left@ == shed(scope@.take(i as int), claimed@),
        decreases scope.len() - i,
    {
        proof {
            assert(scope@.take(i + 1).drop_last() == scope@.take(i as int));
        }
        if !contains_path(claimed, scope[i].0) {
            left.push(scope[i]);
        }
        i += 1;
    }
    assert(scope@.take(i as int) == scope@);
    left
}

/// A scope with the entries of another added.
pub fn extend_scope(base: &Scope, extra: Scope) -> (all: Scope)
    ensures
        all@ == extended(base@, extra@),
{
    let mut all = shed_scope(base, &extra);
    let mut i: usize = 0;
    while i < extra.len()
        invariant
            i <= extra.len(),
            all@ == shed(base@, extra@) + extra@.take(i as int),
        decreases extra.len() - i,
    {
        all.push(extra[i]);
        assert(all@ =~= shed(base@, extra@) + extra@.take(i + 1));
        i += 1;
    }
    assert(extra@.take(i as int) == extra@);
    all
}

/// The first entry of the settled differences that is attached to the span.
pub(crate) fn position_of(diff: &Vec<(Span, Scope)>, span: Span) -> (found: Option<usize>)
    ensures
        match found {
            Some(at) => find_span(steps_view(diff@), span, 0) == Some(at as int) && at < diff@.len(),
            None => find_span(steps_view(diff@), span, 0) is None,
        },
{
    let mut i: usize = 0;
    while i < diff.len()
        invariant
            i <= diff.len(),
            find_span(steps_view(diff@), span, 0) == find_span(steps_view(diff@), span, i as int),
        decreases diff.len() - i,
    {
        if diff[i].0 == span {
            return Some(i);
        }
        i += 1;
    }
    None
}

/// Adds a scope to the settled differences under a span, or puts it in the
/// place of what the span had.
pub(crate) fn settle(diff: &mut Vec<(Span, Scope)>, span: Span, scope: Scope, replace: bool)
    ensures
        steps_view(final(diff)@) == if replace {
            replaced(steps_view(old(diff)@), span, scope@)
        } else {
            committed(steps_view(old(diff)@), span, scope@)
        },
{
    let ghost before = steps_view(diff@);
    match position_of(diff, span) {
        Some(at) => {
            let entry = diff.remove(at);
            let merged = if replace {
                scope
            } else {
                extend_scope(&entry.1, scope)
            };
            let ghost merged_view = merged@;
            diff.insert(at, (span, merged));
            assert(steps_view(diff@) =~= before.update(at as int, (span, merged_view)));
        },
        None => {
            diff.push((span, scope));
            assert(steps_view(diff@) =~= before.push((span, scope@)));
        },
    }
}

impl HirPermDiffFlow {
    /// A walk that has not begun.
    pub fn new(mode: PermIncludeMode) -> (flow: HirPermDiffFlow)
        ensures
            flow@ == (FlowView {
                mode,
                diff: Seq::empty(),
                barriers: Seq::empty(),
                scopes: Seq::empty(),
                unsupported: false,
            }),
    {
        let flow = HirPermDiffFlow {
            mode,
            diff: Vec::new(),
            step_barriers: Vec::new(),
            visibility_scopes: Vec::new(),
            unsupported: false,
        };
        assert(flow@.diff =~= Seq::empty());
        assert(flow@.scopes =~= Seq::empty());
        flow
    }

    /// Whether a difference is shown.
    pub fn should_keep(&self, p: &PermissionsDataDiff) -> (r: bool)
        ensures
            r == shown(self.mode, *p),
    {
        let dead = match p.is_live {
            ValueStep::Low => true,
            _ => false,
        };
        let only_changes = match self.mode {
            PermIncludeMode::Changes => true,
            PermIncludeMode::All => false,
        };
        !(dead || (only_changes && p.is_empty()))
    }

    /// The entries of a scope that stay when it is opened behind the given
    /// barriers.
    pub(crate) fn keep(&self, ctxt: &PermissionsCtxt, here: &Scope, barriers: &Vec<Local>) -> (scope:
        Scope)
        ensures
            scope@ == kept(ctxt.places@, self.mode, barriers@, here@),
    {
        let mut scope: Scope = Vec::new();
        let mut i: usize = 0;
        while i < here.len()
            invariant
                i <= here.len(),
                scope@ == kept(ctxt.places@, self.mode, barriers@, here@.take(i as int)),
            decreases here.len() - i,
        {
            proof {
                assert(here@.take(i + 1).drop_last() == here@.take(i as int));
            }
            let entry = here[i];
            if entry.0 < ctxt.places.len() && self.should_keep(&entry.1) && !holds(
                barriers,
                ctxt.places.path_to_place(entry.0).local,
            ) {
                scope.push(entry);
            }
            i += 1;
        }
        assert(here@.take(i as int) == here@);
        scope
    }

    /// Enters a node whose execution makes the differences `here`.
    pub fn open_scope(&mut self, ctxt: &PermissionsCtxt, here: &Scope)
        ensures
            final(self)@ == old(self)@.open(ctxt.places@, here@),
            exclusive(old(self)@.scopes) ==> exclusive(final(self)@.scopes),
    {
        proof {
            if exclusive(self@.scopes) {
                lemma_open_exclusive(self@, ctxt.places@, here@);
            }
        }
        if self.unsupported {
            return ;
        }
        let scope = self.keep(ctxt, here, &self.step_barriers);
        let ghost before = self@;
        let mut scopes: Vec<Scope> = Vec::new();
        let mut i: usize = 0;
        while i < self.visibility_scopes.len()
            invariant
                i <= self.visibility_scopes.len(),
                scopes@.len() == i,
                forall|k: int|
                    0 <= k < i ==> (#[trigger] scopes@[k])@ == shed(
                        self.visibility_scopes@[k]@,
                        scope@,
                    ),
            decreases self.visibility_scopes.len() - i,
        {
            let left = shed_scope(&self.visibility_scopes[i], &scope);
            scopes.push(left);
            i += 1;
        }
        let ghost claimed = scope@;
        let ghost shed_scopes = scopes@;
        scopes.push(scope);
        proof {
            let target = shed_all(before.scopes, claimed).push(claimed);
            assert(scopes_view(scopes@).len() == target.len());
            assert forall|k: int| 0 <= k < target.len() implies scopes_view(scopes@)[k] == target[k] by {
                if k < shed_scopes.len() {
                    assert(scopes@[k] == shed_scopes[k]);
                    assert(before.scopes[k] == self.visibility_scopes@[k]@);
                }
            }
            assert(scopes_view(scopes@) =~= target);
        }
        self.visibility_scopes = scopes;
    }

    /// Leaves the node that opened the innermost scope.
    pub fn close_scope(&mut self, span: Span)
        ensures
            final(self)@ == old(self)@.close(span),
            exclusive(old(self)@.scopes) ==> exclusive(final(self)@.scopes),
    {
        proof {
            if exclusive(self@.scopes) {
                lemma_close_exclusive(self@, span);
            }
        }
        if self.unsupported || self.visibility_scopes.len() == 0 {
            return ;
        }
        let ghost before = self@;
        let scope = self.visibility_scopes.pop().unwrap();
        assert(scopes_view(self.visibility_scopes@) =~= before.scopes.drop_last());
        assert(scope@ == before.scopes.last());
        settle(&mut self.diff, span, scope, false);
    }

    /// Holds the changes of a local back from the scopes that are opened
    /// from now on.
    pub fn push_barrier(&mut self, local: Local)
        ensures
            final(self)@ == old(self)@.hold_back(local),
    {
        if !self.unsupported {
            self.step_barriers.push(local);
        }
    }

    /// Lets go of the barrier that was set last.
    pub fn pop_barrier(&mut self)
        ensures
            final(self)@ == old(self)@.release(),
    {
        if !self.unsupported && self.step_barriers.len() > 0 {
            self.step_barriers.pop();
        }
    }
}

} // verus!
