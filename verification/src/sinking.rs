//! What the walk does to the scopes around a node and to the settled
//! differences: every change is attributed once, to the innermost node
//! that claims it.

use crate::context::PermissionsCtxt;
use crate::flow::{
    committed, extended, find_span, has_path, kept, lemma_find_span, lemma_shed, shed, shed_all,
    FlowView, ScopeView,
};
use crate::place::{Local, Path, Point};
use crate::span::Span;
use crate::stepper::PermIncludeMode;
use crate::visit::{Node, NodeKind};
use vstd::prelude::*;

verus! {

/// Whether the settled differences hold a difference of the path under the
/// span.
pub open spec fn settled_in(diff: Seq<(Span, ScopeView)>, span: Span, path: Path) -> bool {
    exists|i: int| 0 <= i < diff.len() && (#[trigger] diff[i]).0 == span && has_path(diff[i].1, path)
}

/// Whether one of the first `upto` nodes of a list, or a node inside it,
/// has the span.
pub open spec fn spans_among(nodes: Seq<Node>, upto: int, span: Span) -> bool {
    exists|i: int| 0 <= i < upto && i < nodes.len() && (#[trigger] nodes[i]).has_span(span)
}

impl Node {
    /// Whether the node, or a node inside it, has the span.
    pub open spec fn has_span(self, span: Span) -> bool
        decreases self,
    {
        self.span == span || exists|i: int|
            0 <= i < self.children@.len() && (#[trigger] self.children@[i]).has_span(span)
    }

    /// Whether the node opens a scope of its own when it is visited.
    pub open spec fn scoped(self) -> bool {
        self.kind is Stmt || self.kind is Block || self.kind is If || self.kind is Match
    }
}

impl PermissionsCtxt {
    /// The scope that a node opens behind the barriers given, for what its
    /// execution changes.
    pub open spec fn scope_of(
        &self,
        mode: PermIncludeMode,
        barriers: Seq<Local>,
        here: ScopeView,
    ) -> ScopeView {
        kept(self.places@, mode, barriers, here)
    }

    /// What the condition of an `if` or a `match` changes.
    pub open spec fn visible_at_condition(&self, cond: Node) -> ScopeView {
        match cond.locations {
            Some((entry, exit)) => self.visible_between(entry, exit, false),
            None => Seq::empty(),
        }
    }

    /// The point at which an `if` or a `match` branches.
    pub open spec fn branch_point(&self, cond: Node) -> Option<Point> {
        match cond.locations {
            Some((_, exit)) => Some(exit),
            None => None,
        }
    }

    /// The entries of the scopes that are opened inside a node while it is
    /// visited, in the order in which they are opened.
    pub open spec fn claims_inside(
        &self,
        mode: PermIncludeMode,
        barriers: Seq<Local>,
        node: Node,
    ) -> ScopeView
        decreases node, 0nat,
    {
        let kids = node.children@;
        match node.kind {
            NodeKind::Stmt => self.claims_of(mode, barriers, kids, kids.len()),
            NodeKind::Block { tail } => {
                if tail && kids.len() > 0 {
                    let last = kids[kids.len() - 1];
                    self.claims_of(mode, barriers, kids, (kids.len() - 1) as nat) + (self.scope_of(
                        mode,
                        barriers,
                        self.visible_here(last.locations),
                    ) + self.claims(mode, barriers, last))
                } else {
                    self.claims_of(mode, barriers, kids, kids.len())
                }
            },
            NodeKind::Local { binding, has_else } => {
                let held = match binding {
                    Some(local) => barriers.push(local),
                    None => barriers,
                };
                self.claims_of(mode, held, kids, kids.len())
            },
            NodeKind::If | NodeKind::Match => {
                if kids.len() == 0 {
                    Seq::empty()
                } else {
                    let cond = kids[0];
                    (self.scope_of(mode, barriers, self.visible_at_condition(cond)) + self.claims_of(
                        mode,
                        barriers,
                        cond.children@,
                        cond.children@.len(),
                    )) + self.claims_of_pads(mode, barriers, kids, self.branch_point(cond), kids.len())
                }
            },
            NodeKind::Other => self.claims_of(mode, barriers, kids, kids.len()),
        }
    }

    /// The entries of the scopes that are opened while a node is visited:
    /// of the node's own scope, where it opens one, and of the scopes
    /// inside it.
    pub open spec fn claims(&self, mode: PermIncludeMode, barriers: Seq<Local>, node: Node) -> ScopeView
        decreases node, 1nat,
    {
        if node.scoped() {
            self.scope_of(mode, barriers, self.visible_here(node.locations)) + self.claims_inside(
                mode,
                barriers,
                node,
            )
        } else {
            self.claims_inside(mode, barriers, node)
        }
    }

    /// The entries of the scopes that are opened while the first `upto`
    /// nodes of a list are visited.
    pub open spec fn claims_of(
        &self,
        mode: PermIncludeMode,
        barriers: Seq<Local>,
        nodes: Seq<Node>,
        upto: nat,
    ) -> ScopeView
        decreases nodes, upto,
    {
        if upto == 0 || upto > nodes.len() {
            Seq::empty()
        } else {
            self.claims_of(mode, barriers, nodes, (upto - 1) as nat) + self.claims(
                mode,
                barriers,
                nodes[upto - 1],
            )
        }
    }

    /// The entries of the scopes that are opened while the branches among
    /// the first `upto` children of an `if` or a `match` are walked.
    pub open spec fn claims_of_pads(
        &self,
        mode: PermIncludeMode,
        barriers: Seq<Local>,
        nodes: Seq<Node>,
        branch_point: Option<Point>,
        upto: nat,
    ) -> ScopeView
        decreases nodes, upto,
    {
        if upto <= 1 || upto > nodes.len() {
            Seq::empty()
        } else {
            let before = self.claims_of_pads(mode, barriers, nodes, branch_point, (upto - 1) as nat);
            let pad = nodes[upto - 1];
            match pad.locations {
                Some((entry, exit)) => {
                    let from = match branch_point {
                        Some(point) => point,
                        None => entry,
                    };
                    before + (self.scope_of(mode, barriers, self.visible_between(from, exit, true))
                        + self.claims_of(mode, barriers, pad.children@, pad.children@.len()))
                },
                None => before,
            }
        }
    }
}

/// The walk from `before` to `after` keeps the frame: it has not stopped,
/// the barriers and the mode are as before, the settled differences are
/// the only other thing that has changed, and every scope that was open is
/// what it was less the entries of the paths of `claimed`.
pub open spec fn keeps_frame(before: FlowView, after: FlowView, claimed: ScopeView) -> bool {
    &&& !before.unsupported
    &&& !after.unsupported
    &&& after.mode == before.mode
    &&& after.barriers == before.barriers
    &&& after.scopes == shed_all(before.scopes, claimed)
}

/// Whatever the walk from `before` to `after` has settled is a difference
/// of a path of `claimed`, under the span of one of the first `upto` nodes
/// of the list or of a node inside them.
pub open spec fn settles_among(
    before: FlowView,
    after: FlowView,
    claimed: ScopeView,
    nodes: Seq<Node>,
    upto: int,
) -> bool {
    forall|span: Span, path: Path| #[trigger]
        settled_in(after.diff, span, path) ==> settled_in(before.diff, span, path) || (spans_among(
            nodes,
            upto,
            span,
        ) && has_path(claimed, path))
}

/// Whatever the walk from `before` to `after` has settled is a difference
/// of a path of `claimed`, under the span of the node or of a node inside
/// it.
pub open spec fn settles_within(
    before: FlowView,
    after: FlowView,
    claimed: ScopeView,
    node: Node,
) -> bool {
    forall|span: Span, path: Path| #[trigger]
        settled_in(after.diff, span, path) ==> settled_in(before.diff, span, path) || (node.has_span(
            span,
        ) && has_path(claimed, path))
}

impl PermissionsCtxt {
    /// The state of the walk inside a node that opens a scope: when the
    /// scope is open and everything inside the node is visited, before the
    /// scope is closed.
    pub open spec fn inside(&self, state: FlowView, node: Node) -> FlowView {
        let places = self.places@;
        let kids = node.children@;
        let opened = state.open(places, self.visible_here(node.locations));
        match node.kind {
            NodeKind::Stmt => self.walked(opened, kids, kids.len()),
            NodeKind::Block { tail } => {
                if tail && kids.len() > 0 {
                    let last = kids[kids.len() - 1];
                    let stmts = self.walked(opened, kids, (kids.len() - 1) as nat);
                    let inner = stmts.open(places, self.visible_here(last.locations));
                    self.visited(inner, last).close(last.span)
                } else {
                    self.walked(opened, kids, kids.len())
                }
            },
            NodeKind::If | NodeKind::Match => {
                if kids.len() == 0 {
                    opened
                } else {
                    let cond = kids[0];
                    let tested = self.walked(
                        opened.open(places, self.visible_at_condition(cond)),
                        cond.children@,
                        cond.children@.len(),
                    ).close(cond.span);
                    self.branched(tested, kids, self.branch_point(cond), kids.len())
                }
            },
            _ => state,
        }
    }
}

/// A list of entries that is put together holds the paths of its parts.
pub proof fn lemma_has_path_add(a: ScopeView, b: ScopeView, path: Path)
    ensures
        has_path(a + b, path) <==> has_path(a, path) || has_path(b, path),
{
    if has_path(a, path) {
        let i = choose|i: int| 0 <= i < a.len() && (#[trigger] a[i]).0 == path;
        assert((a + b)[i].0 == path);
    }
    if has_path(b, path) {
        let i = choose|i: int| 0 <= i < b.len() && (#[trigger] b[i]).0 == path;
        assert((a + b)[a.len() + i].0 == path);
    }
    if has_path(a + b, path) {
        let i = choose|i: int| 0 <= i < (a + b).len() && (#[trigger] (a + b)[i]).0 == path;
        if i < a.len() {
            assert(a[i].0 == path);
        } else {
            assert(b[i - a.len()].0 == path);
        }
    }
}

/// Shedding twice is shedding what both lists claim.
pub proof fn lemma_shed_twice(scope: ScopeView, a: ScopeView, b: ScopeView)
    ensures
        shed(shed(scope, a), b) == shed(scope, a + b),
    decreases scope.len(),
{
    if scope.len() > 0 {
        let front = scope.drop_last();
        let last = scope.last();
        lemma_shed_twice(front, a, b);
        lemma_has_path_add(a, b, last.0);
        if !has_path(a, last.0) {
            assert(shed(scope, a).drop_last() == shed(front, a));
        }
    }
}

/// Shedding what nothing claims leaves a scope as it is.
pub proof fn lemma_shed_nothing(scope: ScopeView)
    ensures
        shed(scope, Seq::empty()) == scope,
    decreases scope.len(),
{
    if scope.len() > 0 {
        lemma_shed_nothing(scope.drop_last());
        assert(scope.drop_last().push(scope.last()) == scope);
    }
}

/// Shedding all scopes twice is shedding them of what both lists claim;
/// shedding them of nothing leaves them as they are.
pub proof fn lemma_shed_all(scopes: Seq<ScopeView>, a: ScopeView, b: ScopeView)
    ensures
        shed_all(shed_all(scopes, a), b) == shed_all(scopes, a + b),
        shed_all(scopes, Seq::empty()) == scopes,
{
    assert forall|i: int| 0 <= i < scopes.len() implies shed_all(shed_all(scopes, a), b)[i] == shed_all(
        scopes,
        a + b,
    )[i] && shed_all(scopes, Seq::empty())[i] == scopes[i] by {
        lemma_shed_twice(scopes[i], a, b);
        lemma_shed_nothing(scopes[i]);
    }
    assert(shed_all(shed_all(scopes, a), b) =~= shed_all(scopes, a + b));
    assert(shed_all(scopes, Seq::empty()) =~= scopes);
}

/// The settled differences with a scope added under a span hold what they
/// held, and under that span the differences of the scope.
pub proof fn lemma_committed(
    diff: Seq<(Span, ScopeView)>,
    span: Span,
    scope: ScopeView,
    at: Span,
    path: Path,
)
    ensures
        settled_in(committed(diff, span, scope), at, path) <==> settled_in(diff, at, path) || (at
            == span && has_path(scope, path)),
{
    lemma_find_span(diff, span, 0);
    let out = committed(diff, span, scope);
    match find_span(diff, span, 0) {
        Some(i) => {
            lemma_shed(diff[i].1, scope, path);
            lemma_has_path_add(shed(diff[i].1, scope), scope, path);
            assert(out[i].1 == extended(diff[i].1, scope));
            if settled_in(diff, at, path) {
                let k = choose|k: int|
                    0 <= k < diff.len() && (#[trigger] diff[k]).0 == at && has_path(diff[k].1, path);
                if k == i {
                    assert(out[i].0 == at && has_path(out[i].1, path));
                } else {
                    assert(out[k] == diff[k]);
                }
            }
            if at == span && has_path(scope, path) {
                assert(out[i].0 == at && has_path(out[i].1, path));
            }
            if settled_in(out, at, path) {
                let k = choose|k: int|
                    0 <= k < out.len() && (#[trigger] out[k]).0 == at && has_path(out[k].1, path);
                if k != i {
                    assert(out[k] == diff[k]);
                    assert(diff[k].0 == at && has_path(diff[k].1, path));
                } else if !(has_path(scope, path)) {
                    assert(diff[i].0 == at && has_path(diff[i].1, path));
                }
            }
        },
        None => {
            if settled_in(diff, at, path) {
                let k = choose|k: int|
                    0 <= k < diff.len() && (#[trigger] diff[k]).0 == at && has_path(diff[k].1, path);
                assert(out[k] == diff[k]);
            }
            if at == span && has_path(scope, path) {
                assert(out[out.len() - 1].0 == at && has_path(out[out.len() - 1].1, path));
            }
            if settled_in(out, at, path) {
                let k = choose|k: int|
                    0 <= k < out.len() && (#[trigger] out[k]).0 == at && has_path(out[k].1, path);
                if k < diff.len() {
                    assert(out[k] == diff[k]);
                    assert(diff[k].0 == at && has_path(diff[k].1, path));
                }
            }
        },
    }
}

/// Two walks in a row keep the frame, with what both claim.
pub proof fn lemma_frame_compose(
    a: FlowView,
    b: FlowView,
    c: FlowView,
    first: ScopeView,
    second: ScopeView,
)
    requires
        keeps_frame(a, b, first),
        keeps_frame(b, c, second),
    ensures
        keeps_frame(a, c, first + second),
{
    lemma_shed_all(a.scopes, first, second);
}

/// A node that opens a scope, lets a walk pass that keeps the frame, and
/// closes the scope keeps the frame itself: it claims what its scope holds
/// and what the walk claims, and it settles under its span what the walk
/// has left of its scope.
pub proof fn lemma_scoped(
    places: Seq<crate::place::PlaceData>,
    state: FlowView,
    here: ScopeView,
    inner: FlowView,
    claimed: ScopeView,
    span: Span,
)
    requires
        !state.unsupported,
        keeps_frame(state.open(places, here), inner, claimed),
    ensures
        keeps_frame(
            state,
            inner.close(span),
            kept(places, state.mode, state.barriers, here) + claimed,
        ),
        inner.close(span).diff == committed(
            inner.diff,
            span,
            shed(kept(places, state.mode, state.barriers, here), claimed),
        ),
{
    let own = kept(places, state.mode, state.barriers, here);
    let opened = state.open(places, here);
    assert(opened.scopes == shed_all(state.scopes, own).push(own));
    assert(inner.scopes.len() == state.scopes.len() + 1);
    assert(inner.scopes.last() == shed(own, claimed)) by {
        assert(inner.scopes[state.scopes.len() as int] == shed(
            opened.scopes[state.scopes.len() as int],
            claimed,
        ));
    }
    lemma_shed_all(state.scopes, own, claimed);
    assert(inner.scopes.drop_last() =~= shed_all(shed_all(state.scopes, own), claimed)) by {
        assert forall|i: int| 0 <= i < state.scopes.len() implies inner.scopes.drop_last()[i]
            == shed_all(shed_all(state.scopes, own), claimed)[i] by {
            assert(inner.scopes[i] == shed(opened.scopes[i], claimed));
            assert(opened.scopes[i] == shed(state.scopes[i], own));
        }
    }
}

/// What a scoped walk settles: the differences that the walk inside has
/// settled, and those of the node's own scope under the node's span.
proof fn lemma_scoped_settles(
    places: Seq<crate::place::PlaceData>,
    state: FlowView,
    here: ScopeView,
    inner: FlowView,
    claimed: ScopeView,
    node: Node,
)
    requires
        !state.unsupported,
        keeps_frame(state.open(places, here), inner, claimed),
        settles_among(
            state.open(places, here),
            inner,
            claimed,
            node.children@,
            node.children@.len() as int,
        ),
    ensures
        settles_within(
            state,
            inner.close(node.span),
            kept(places, state.mode, state.barriers, here) + claimed,
            node,
        ),
{
    let own = kept(places, state.mode, state.barriers, here);
    let out = inner.close(node.span);
    lemma_scoped(places, state, here, inner, claimed, node.span);
    assert forall|span: Span, path: Path| #[trigger] settled_in(out.diff, span, path) implies settled_in(
        state.diff,
        span,
        path,
    ) || (node.has_span(span) && has_path(own + claimed, path)) by {
        lemma_committed(inner.diff, node.span, shed(own, claimed), span, path);
        lemma_shed(own, claimed, path);
        lemma_has_path_add(own, claimed, path);
        if settled_in(inner.diff, span, path) && !settled_in(state.diff, span, path) {
            assert(spans_among(node.children@, node.children@.len() as int, span));
        }
    }
}

impl PermissionsCtxt {
    /// A visit keeps the frame. A walk that has stopped stays as it is. A
    /// visit that does not stop leaves the barriers as they were and of
    /// every open scope what the visit has not claimed, and settles only
    /// differences of paths that it has claimed, under spans of the node.
    pub proof fn lemma_visited(&self, state: FlowView, node: Node)
        ensures
            state.unsupported ==> self.visited(state, node) == state,
            !self.visited(state, node).unsupported ==> keeps_frame(
                state,
                self.visited(state, node),
                self.claims(state.mode, state.barriers, node),
            ) && settles_within(
                state,
                self.visited(state, node),
                self.claims(state.mode, state.barriers, node),
                node,
            ),
        decreases node, 1nat,
    {
        let out = self.visited(state, node);
        let kids = node.children@;
        let mode = state.mode;
        let barriers = state.barriers;
        if !state.unsupported && !out.unsupported {
            if node.scoped() {
                let here = self.visible_here(node.locations);
                let inner = self.inside(state, node);
                assert(out == inner.close(node.span));
                self.lemma_inside(state, node);
                lemma_scoped(
                    self.places@,
                    state,
                    here,
                    inner,
                    self.claims_inside(mode, barriers, node),
                    node.span,
                );
                lemma_scoped_settles(
                    self.places@,
                    state,
                    here,
                    inner,
                    self.claims_inside(mode, barriers, node),
                    node,
                );
            } else {
                match node.kind {
                    NodeKind::Local { binding, has_else } => {
                        let held = match binding {
                            Some(local) => state.hold_back(local),
                            None => state,
                        };
                        let init = self.walked(held, kids, kids.len());
                        self.lemma_walked(held, kids, kids.len());
                        assert(!has_else);
                        assert(!init.unsupported);
                        let claimed = self.claims_of(mode, held.barriers, kids, kids.len());
                        assert(keeps_frame(held, init, claimed));
                        assert(out.barriers =~= barriers);
                        assert(keeps_frame(state, out, claimed));
                        assert forall|span: Span, path: Path| #[trigger]
                            settled_in(out.diff, span, path) implies settled_in(
                            state.diff,
                            span,
                            path,
                        ) || (node.has_span(span) && has_path(claimed, path)) by {
                            if !settled_in(state.diff, span, path) {
                                assert(spans_among(kids, kids.len() as int, span));
                            }
                        }
                    },
                    _ => {
                        self.lemma_walked(state, kids, kids.len());
                        let claimed = self.claims_of(mode, barriers, kids, kids.len());
                        assert forall|span: Span, path: Path| #[trigger]
                            settled_in(out.diff, span, path) implies settled_in(
                            state.diff,
                            span,
                            path,
                        ) || (node.has_span(span) && has_path(claimed, path)) by {
                            if !settled_in(state.diff, span, path) {
                                assert(spans_among(kids, kids.len() as int, span));
                            }
                        }
                    },
                }
            }
        }
    }

    /// The walk inside a node that opens a scope keeps the frame of the
    /// state in which the scope is open.
    pub proof fn lemma_inside(&self, state: FlowView, node: Node)
        requires
            node.scoped(),
            !state.unsupported,
        ensures
            !self.inside(state, node).unsupported ==> keeps_frame(
                state.open(self.places@, self.visible_here(node.locations)),
                self.inside(state, node),
                self.claims_inside(state.mode, state.barriers, node),
            ) && settles_among(
                state.open(self.places@, self.visible_here(node.locations)),
                self.inside(state, node),
                self.claims_inside(state.mode, state.barriers, node),
                node.children@,
                node.children@.len() as int,
            ),
        decreases node, 0nat,
    {
        let places = self.places@;
        let kids = node.children@;
        let n = kids.len();
        let mode = state.mode;
        let barriers = state.barriers;
        let opened = state.open(places, self.visible_here(node.locations));
        let ins = self.inside(state, node);
        let tail = match node.kind {
            NodeKind::Block { tail } => tail,
            _ => false,
        };
        let branches = node.kind is If || node.kind is Match;
        if !ins.unsupported {
            if tail && n > 0 {
                {
                    let last = kids[n - 1];
                    let stmts = self.walked(opened, kids, (n - 1) as nat);
                    let own = self.visible_here(last.locations);
                    let inner = stmts.open(places, own);
                    let seen = self.visited(inner, last);
                    self.lemma_walked(opened, kids, (n - 1) as nat);
                    self.lemma_visited(inner, last);
                    assert(!seen.unsupported);
                    assert(!inner.unsupported);
                    assert(!stmts.unsupported);
                    let first = self.claims_of(mode, barriers, kids, (n - 1) as nat);
                    let second = self.claims(mode, barriers, last);
                    let kept_last = self.scope_of(mode, barriers, own);
                    lemma_scoped(places, stmts, own, seen, second, last.span);
                    lemma_frame_compose(opened, stmts, ins, first, kept_last + second);
                    assert forall|span: Span, path: Path| #[trigger]
                        settled_in(ins.diff, span, path) implies settled_in(opened.diff, span, path)
                        || (spans_among(kids, n as int, span) && has_path(
                        first + (kept_last + second),
                        path,
                    )) by {
                        lemma_committed(seen.diff, last.span, shed(kept_last, second), span, path);
                        lemma_shed(kept_last, second, path);
                        lemma_has_path_add(kept_last, second, path);
                        lemma_has_path_add(first, kept_last + second, path);
                        if !settled_in(opened.diff, span, path) {
                            if settled_in(stmts.diff, span, path) {
                                let i = choose|i: int|
                                    0 <= i < n - 1 && i < kids.len() && (#[trigger] kids[i]).has_span(
                                        span,
                                    );
                                assert(kids[i].has_span(span));
                            } else {
                                assert(kids[n - 1].has_span(span));
                            }
                        }
                    }
                }
            } else if branches && n > 0 {
                {
                    let cond = kids[0];
                    let own = self.visible_at_condition(cond);
                    let asked = opened.open(places, own);
                    let walked = self.walked(asked, cond.children@, cond.children@.len());
                    let tested = walked.close(cond.span);
                    let point = self.branch_point(cond);
                    self.lemma_walked(asked, cond.children@, cond.children@.len());
                    self.lemma_branched(tested, kids, point, n);
                    assert(!tested.unsupported);
                    assert(!walked.unsupported);
                    let kept_cond = self.scope_of(mode, barriers, own);
                    let in_cond = self.claims_of(mode, barriers, cond.children@, cond.children@.len());
                    let in_pads = self.claims_of_pads(mode, barriers, kids, point, n);
                    lemma_scoped(places, opened, own, walked, in_cond, cond.span);
                    lemma_scoped_settles(places, opened, own, walked, in_cond, cond);
                    lemma_frame_compose(opened, tested, ins, kept_cond + in_cond, in_pads);
                    assert forall|span: Span, path: Path| #[trigger]
                        settled_in(ins.diff, span, path) implies settled_in(opened.diff, span, path)
                        || (spans_among(kids, n as int, span) && has_path(
                        (kept_cond + in_cond) + in_pads,
                        path,
                    )) by {
                        lemma_has_path_add(kept_cond + in_cond, in_pads, path);
                        if !settled_in(opened.diff, span, path) {
                            if settled_in(tested.diff, span, path) {
                                assert(kids[0].has_span(span));
                            }
                        }
                    }
                }
            } else if branches {
                lemma_shed_all(opened.scopes, Seq::empty(), Seq::empty());
            } else {
                self.lemma_walked(opened, kids, n);
            }
        }
    }

    /// A walk over the first nodes of a list keeps the frame.
    pub proof fn lemma_walked(&self, state: FlowView, nodes: Seq<Node>, upto: nat)
        ensures
            state.unsupported ==> self.walked(state, nodes, upto) == state,
            !self.walked(state, nodes, upto).unsupported ==> keeps_frame(
                state,
                self.walked(state, nodes, upto),
                self.claims_of(state.mode, state.barriers, nodes, upto),
            ) && settles_among(
                state,
                self.walked(state, nodes, upto),
                self.claims_of(state.mode, state.barriers, nodes, upto),
                nodes,
                upto as int,
            ),
        decreases nodes, upto,
    {
        let out = self.walked(state, nodes, upto);
        if upto == 0 || upto > nodes.len() {
            lemma_shed_all(state.scopes, Seq::empty(), Seq::empty());
        } else {
            let before = self.walked(state, nodes, (upto - 1) as nat);
            let node = nodes[upto - 1];
            self.lemma_walked(state, nodes, (upto - 1) as nat);
            self.lemma_visited(before, node);
            if !out.unsupported {
                assert(!before.unsupported);
                let first = self.claims_of(state.mode, state.barriers, nodes, (upto - 1) as nat);
                let second = self.claims(state.mode, state.barriers, node);
                lemma_frame_compose(state, before, out, first, second);
                assert forall|span: Span, path: Path| #[trigger]
                    settled_in(out.diff, span, path) implies settled_in(state.diff, span, path) || (
                spans_among(nodes, upto as int, span) && has_path(first + second, path)) by {
                    lemma_has_path_add(first, second, path);
                    if !settled_in(state.diff, span, path) {
                        if settled_in(before.diff, span, path) {
                            let i = choose|i: int|
                                0 <= i < upto - 1 && i < nodes.len() && (#[trigger] nodes[i]).has_span(
                                    span,
                                );
                            assert(nodes[i].has_span(span));
                        } else {
                            assert(nodes[upto - 1].has_span(span));
                        }
                    }
                }
            }
        }
    }

    /// A walk over the branches of an `if` or a `match` keeps the frame.
    pub proof fn lemma_branched(
        &self,
        state: FlowView,
        nodes: Seq<Node>,
        branch_point: Option<Point>,
        upto: nat,
    )
        ensures
            state.unsupported ==> self.branched(state, nodes, branch_point, upto) == state,
            !self.branched(state, nodes, branch_point, upto).unsupported ==> keeps_frame(
                state,
                self.branched(state, nodes, branch_point, upto),
                self.claims_of_pads(state.mode, state.barriers, nodes, branch_point, upto),
            ) && settles_among(
                state,
                self.branched(state, nodes, branch_point, upto),
                self.claims_of_pads(state.mode, state.barriers, nodes, branch_point, upto),
                nodes,
                upto as int,
            ),
        decreases nodes, upto,
    {
        let out = self.branched(state, nodes, branch_point, upto);
        let mode = state.mode;
        let barriers = state.barriers;
        if upto <= 1 || upto > nodes.len() {
            lemma_shed_all(state.scopes, Seq::empty(), Seq::empty());
        } else {
            let before = self.branched(state, nodes, branch_point, (upto - 1) as nat);
            let pad = nodes[upto - 1];
            self.lemma_branched(state, nodes, branch_point, (upto - 1) as nat);
            let first = self.claims_of_pads(mode, barriers, nodes, branch_point, (upto - 1) as nat);
            match pad.locations {
                Some((entry, exit)) => {
                    let from = match branch_point {
                        Some(point) => point,
                        None => entry,
                    };
                    let here = self.visible_between(from, exit, true);
                    let opened = before.open(self.places@, here);
                    let walked = self.walked(opened, pad.children@, pad.children@.len());
                    self.lemma_walked(opened, pad.children@, pad.children@.len());
                    if !out.unsupported {
                        assert(!walked.unsupported);
                        assert(!before.unsupported);
                        let own = self.scope_of(mode, barriers, here);
                        let in_pad = self.claims_of(mode, barriers, pad.children@, pad.children@.len());
                        lemma_scoped(self.places@, before, here, walked, in_pad, pad.span);
                        lemma_scoped_settles(self.places@, before, here, walked, in_pad, pad);
                        lemma_frame_compose(state, before, out, first, own + in_pad);
                        assert forall|span: Span, path: Path| #[trigger]
                            settled_in(out.diff, span, path) implies settled_in(state.diff, span, path)
                            || (spans_among(nodes, upto as int, span) && has_path(
                            first + (own + in_pad),
                            path,
                        )) by {
                            lemma_has_path_add(first, own + in_pad, path);
                            if !settled_in(state.diff, span, path) {
                                if settled_in(before.diff, span, path) {
                                    let i = choose|i: int|
                                        0 <= i < upto - 1 && i < nodes.len() && (
                                        #[trigger] nodes[i]).has_span(span);
                                    assert(nodes[i].has_span(span));
                                } else {
                                    assert(nodes[upto - 1].has_span(span));
                                }
                            }
                        }
                    }
                },
                None => {
                    if !out.unsupported {
                        assert forall|span: Span, path: Path| #[trigger]
                            settled_in(out.diff, span, path) implies settled_in(state.diff, span, path)
                            || (spans_among(nodes, upto as int, span) && has_path(first, path)) by {
                            if !settled_in(state.diff, span, path) {
                                let i = choose|i: int|
                                    0 <= i < upto - 1 && i < nodes.len() && (#[trigger] nodes[i]).has_span(
                                        span,
                                    );
                                assert(nodes[i].has_span(span));
                            }
                        }
                    }
                },
            }
        }
    }
}

impl PermissionsCtxt {
    /// A visit of a node that opens a scope is the walk inside it and the
    /// closing of the scope.
    pub proof fn lemma_visited_closes(&self, state: FlowView, node: Node)
        requires
            node.scoped(),
            !state.unsupported,
        ensures
            self.visited(state, node) == self.inside(state, node).close(node.span),
    {
    }

    /// Deeper scopes take precedence: a change that a visit settles under
    /// the span of a node inside is not settled under the span of the node
    /// itself.
    ///
    /// The node opens a scope, and the visit does not stop. Its span is its
    /// own: no node inside it has the same span. Before the visit nothing
    /// of the path is settled under the node's span.
    pub proof fn lemma_sinks(&self, state: FlowView, node: Node, nested: Span, path: Path)
        requires
            node.scoped(),
            !self.visited(state, node).unsupported,
            !spans_among(node.children@, node.children@.len() as int, node.span),
            !settled_in(state.diff, node.span, path),
            nested != node.span,
            settled_in(self.visited(state, node).diff, nested, path),
            !settled_in(state.diff, nested, path),
        ensures
            !settled_in(self.visited(state, node).diff, node.span, path),
            has_path(self.claims_inside(state.mode, state.barriers, node), path),
    {
        let out = self.visited(state, node);
        self.lemma_visited(state, node);
        assert(!state.unsupported);
        let here = self.visible_here(node.locations);
        let own = self.scope_of(state.mode, state.barriers, here);
        let inner = self.inside(state, node);
        let claimed = self.claims_inside(state.mode, state.barriers, node);
        self.lemma_visited_closes(state, node);
        self.lemma_inside(state, node);
        lemma_scoped(self.places@, state, here, inner, claimed, node.span);
        lemma_committed(inner.diff, node.span, shed(own, claimed), nested, path);
        lemma_committed(inner.diff, node.span, shed(own, claimed), node.span, path);
        lemma_shed(own, claimed, path);
        assert(settled_in(inner.diff, nested, path));
        assert(has_path(claimed, path));
    }
}

impl PermissionsCtxt {
    /// What a scope that is opened for `here` settles when it is closed:
    /// the differences that it holds and that no scope opened inside it,
    /// with the entries `inside`, has claimed.
    pub open spec fn left_of(
        &self,
        mode: PermIncludeMode,
        barriers: Seq<Local>,
        here: ScopeView,
        inside: ScopeView,
    ) -> ScopeView {
        shed(self.scope_of(mode, barriers, here), inside)
    }

    /// Whether the walk inside a node attributes a change of the path to
    /// the span.
    pub open spec fn attributes_inside(
        &self,
        mode: PermIncludeMode,
        barriers: Seq<Local>,
        node: Node,
        span: Span,
        path: Path,
    ) -> bool
        decreases node, 0nat,
    {
        let kids = node.children@;
        match node.kind {
            NodeKind::Stmt => self.attributes_of(mode, barriers, kids, kids.len(), span, path),
            NodeKind::Block { tail } => {
                if tail && kids.len() > 0 {
                    let last = kids[kids.len() - 1];
                    ||| self.attributes_of(mode, barriers, kids, (kids.len() - 1) as nat, span, path)
                    ||| self.attributes(mode, barriers, last, span, path)
                    ||| (span == last.span && has_path(
                        self.left_of(
                            mode,
                            barriers,
                            self.visible_here(last.locations),
                            self.claims(mode, barriers, last),
                        ),
                        path,
                    ))
                } else {
                    self.attributes_of(mode, barriers, kids, kids.len(), span, path)
                }
            },
            NodeKind::Local { binding, has_else } => {
                let held = match binding {
                    Some(local) => barriers.push(local),
                    None => barriers,
                };
                self.attributes_of(mode, held, kids, kids.len(), span, path)
            },
            NodeKind::If | NodeKind::Match => {
                if kids.len() == 0 {
                    false
                } else {
                    let cond = kids[0];
                    ||| self.attributes_of(
                        mode,
                        barriers,
                        cond.children@,
                        cond.children@.len(),
                        span,
                        path,
                    )
                    ||| (span == cond.span && has_path(
                        self.left_of(
                            mode,
                            barriers,
                            self.visible_at_condition(cond),
                            self.claims_of(mode, barriers, cond.children@, cond.children@.len()),
                        ),
                        path,
                    ))
                    ||| self.attributes_of_pads(
                        mode,
                        barriers,
                        kids,
                        self.branch_point(cond),
                        kids.len(),
                        span,
                        path,
                    )
                }
            },
            NodeKind::Other => self.attributes_of(mode, barriers, kids, kids.len(), span, path),
        }
    }

    /// Whether the visit of a node attributes a change of the path to the
    /// span: the span is that of a node which holds the change in its
    /// scope, while no scope inside that node claims the path.
    pub open spec fn attributes(
        &self,
        mode: PermIncludeMode,
        barriers: Seq<Local>,
        node: Node,
        span: Span,
        path: Path,
    ) -> bool
        decreases node, 1nat,
    {
        ||| self.attributes_inside(mode, barriers, node, span, path)
        ||| (node.scoped() && span == node.span && has_path(
            self.left_of(
                mode,
                barriers,
                self.visible_here(node.locations),
                self.claims_inside(mode, barriers, node),
            ),
            path,
        ))
    }

    /// Whether the visit of one of the first `upto` nodes of a list
    /// attributes a change of the path to the span.
    pub open spec fn attributes_of(
        &self,
        mode: PermIncludeMode,
        barriers: Seq<Local>,
        nodes: Seq<Node>,
        upto: nat,
        span: Span,
        path: Path,
    ) -> bool
        decreases nodes, upto,
    {
        if upto == 0 || upto > nodes.len() {
            false
        } else {
            ||| self.attributes_of(mode, barriers, nodes, (upto - 1) as nat, span, path)
            ||| self.attributes(mode, barriers, nodes[upto - 1], span, path)
        }
    }

    /// Whether the walk over one of the branches among the first `upto`
    /// children of an `if` or a `match` attributes a change of the path to
    /// the span.
    pub open spec fn attributes_of_pads(
        &self,
        mode: PermIncludeMode,
        barriers: Seq<Local>,
        nodes: Seq<Node>,
        branch_point: Option<Point>,
        upto: nat,
        span: Span,
        path: Path,
    ) -> bool
        decreases nodes, upto,
    {
        if upto <= 1 || upto > nodes.len() {
            false
        } else {
            let pad = nodes[upto - 1];
            ||| self.attributes_of_pads(
                mode,
                barriers,
                nodes,
                branch_point,
                (upto - 1) as nat,
                span,
                path,
            )
            ||| match pad.locations {
                Some((entry, exit)) => {
                    let from = match branch_point {
                        Some(point) => point,
                        None => entry,
                    };
                    ||| self.attributes_of(
                        mode,
                        barriers,
                        pad.children@,
                        pad.children@.len(),
                        span,
                        path,
                    )
                    ||| (span == pad.span && has_path(
                        self.left_of(
                            mode,
                            barriers,
                            self.visible_between(from, exit, true),
                            self.claims_of(mode, barriers, pad.children@, pad.children@.len()),
                        ),
                        path,
                    ))
                },
                None => false,
            }
        }
    }
}

/// When a scope is closed that was opened for `here`, the settled
/// differences hold what they held when it was opened, what the walk
/// inside has attributed (which `inside` says), and under the node's span
/// what is left of the scope.
proof fn lemma_scoped_attributes(
    places: Seq<crate::place::PlaceData>,
    state: FlowView,
    here: ScopeView,
    inner: FlowView,
    claimed: ScopeView,
    at: Span,
    span: Span,
    path: Path,
    inside: bool,
)
    requires
        !state.unsupported,
        keeps_frame(state.open(places, here), inner, claimed),
        settled_in(inner.diff, span, path) <==> settled_in(state.diff, span, path) || inside,
    ensures
        settled_in(inner.close(at).diff, span, path) <==> settled_in(state.diff, span, path) || inside
            || (span == at && has_path(
            shed(kept(places, state.mode, state.barriers, here), claimed),
            path,
        )),
{
    lemma_scoped(places, state, here, inner, claimed, at);
    lemma_committed(
        inner.diff,
        at,
        shed(kept(places, state.mode, state.barriers, here), claimed),
        span,
        path,
    );
}

impl PermissionsCtxt {
    /// What a visit settles is exactly what it attributes: after a visit
    /// that does not stop, a change of a path is settled under a span if
    /// and only if it was so before, or the span is that of a node of the
    /// tree whose scope holds the change while no scope inside that node
    /// claims the path.
    pub proof fn lemma_visited_attributes(&self, state: FlowView, node: Node, span: Span, path: Path)
        requires
            !self.visited(state, node).unsupported,
        ensures
            settled_in(self.visited(state, node).diff, span, path) <==> settled_in(
                state.diff,
                span,
                path,
            ) || self.attributes(state.mode, state.barriers, node, span, path),
        decreases node, 1nat,
    {
        let out = self.visited(state, node);
        let kids = node.children@;
        let mode = state.mode;
        let barriers = state.barriers;
        self.lemma_visited(state, node);
        if node.scoped() {
            let here = self.visible_here(node.locations);
            let inner = self.inside(state, node);
            self.lemma_visited_closes(state, node);
            self.lemma_inside(state, node);
            self.lemma_inside_attributes(state, node, span, path);
            lemma_scoped_attributes(
                self.places@,
                state,
                here,
                inner,
                self.claims_inside(mode, barriers, node),
                node.span,
                span,
                path,
                self.attributes_inside(mode, barriers, node, span, path),
            );
        } else {
            match node.kind {
                NodeKind::Local { binding, has_else } => {
                    let held = match binding {
                        Some(local) => state.hold_back(local),
                        None => state,
                    };
                    self.lemma_walked(held, kids, kids.len());
                    self.lemma_walked_attributes(held, kids, kids.len(), span, path);
                },
                _ => {
                    self.lemma_walked_attributes(state, kids, kids.len(), span, path);
                },
            }
        }
    }

    /// What the walk inside a node that opens a scope settles is exactly
    /// what it attributes.
    pub proof fn lemma_inside_attributes(&self, state: FlowView, node: Node, span: Span, path: Path)
        requires
            node.scoped(),
            !state.unsupported,
            !self.inside(state, node).unsupported,
        ensures
            settled_in(self.inside(state, node).diff, span, path) <==> settled_in(
                state.diff,
                span,
                path,
            ) || self.attributes_inside(state.mode, state.barriers, node, span, path),
        decreases node, 0nat,
    {
        let places = self.places@;
        let kids = node.children@;
        let n = kids.len();
        let mode = state.mode;
        let barriers = state.barriers;
        let opened = state.open(places, self.visible_here(node.locations));
        let tail = match node.kind {
            NodeKind::Block { tail } => tail,
            _ => false,
        };
        let branches = node.kind is If || node.kind is Match;
        if tail && n > 0 {
            let last = kids[n - 1];
            let stmts = self.walked(opened, kids, (n - 1) as nat);
            let own = self.visible_here(last.locations);
            let inner = stmts.open(places, own);
            let seen = self.visited(inner, last);
            self.lemma_walked(opened, kids, (n - 1) as nat);
            self.lemma_visited(inner, last);
            assert(!seen.unsupported);
            assert(!stmts.unsupported);
            self.lemma_walked_attributes(opened, kids, (n - 1) as nat, span, path);
            self.lemma_visited_attributes(inner, last, span, path);
            lemma_scoped_attributes(
                places,
                stmts,
                own,
                seen,
                self.claims(mode, barriers, last),
                last.span,
                span,
                path,
                self.attributes(mode, barriers, last, span, path),
            );
        } else if branches && n > 0 {
            let cond = kids[0];
            let own = self.visible_at_condition(cond);
            let asked = opened.open(places, own);
            let walked = self.walked(asked, cond.children@, cond.children@.len());
            let tested = walked.close(cond.span);
            let point = self.branch_point(cond);
            self.lemma_walked(asked, cond.children@, cond.children@.len());
            self.lemma_branched(tested, kids, point, n);
            assert(!tested.unsupported);
            assert(!walked.unsupported);
            let in_cond = self.claims_of(mode, barriers, cond.children@, cond.children@.len());
            lemma_scoped(places, opened, own, walked, in_cond, cond.span);
            self.lemma_walked_attributes(asked, cond.children@, cond.children@.len(), span, path);
            lemma_scoped_attributes(
                places,
                opened,
                own,
                walked,
                in_cond,
                cond.span,
                span,
                path,
                self.attributes_of(mode, barriers, cond.children@, cond.children@.len(), span, path),
            );
            self.lemma_branched_attributes(tested, kids, point, n, span, path);
        } else if branches {
        } else {
            self.lemma_walked_attributes(opened, kids, n, span, path);
        }
    }

    /// What a walk over the first nodes of a list settles is exactly what
    /// it attributes.
    pub proof fn lemma_walked_attributes(
        &self,
        state: FlowView,
        nodes: Seq<Node>,
        upto: nat,
        span: Span,
        path: Path,
    )
        requires
            !self.walked(state, nodes, upto).unsupported,
        ensures
            settled_in(self.walked(state, nodes, upto).diff, span, path) <==> settled_in(
                state.diff,
                span,
                path,
            ) || self.attributes_of(state.mode, state.barriers, nodes, upto, span, path),
        decreases nodes, upto,
    {
        if !(upto == 0 || upto > nodes.len()) {
            let before = self.walked(state, nodes, (upto - 1) as nat);
            self.lemma_walked(state, nodes, (upto - 1) as nat);
            self.lemma_visited(before, nodes[upto - 1]);
            assert(!before.unsupported);
            self.lemma_walked_attributes(state, nodes, (upto - 1) as nat, span, path);
            self.lemma_visited_attributes(before, nodes[upto - 1], span, path);
        }
    }

    /// What a walk over the branches of an `if` or a `match` settles is
    /// exactly what it attributes.
    pub proof fn lemma_branched_attributes(
        &self,
        state: FlowView,
        nodes: Seq<Node>,
        branch_point: Option<Point>,
        upto: nat,
        span: Span,
        path: Path,
    )
        requires
            !self.branched(state, nodes, branch_point, upto).unsupported,
        ensures
            settled_in(self.branched(state, nodes, branch_point, upto).diff, span, path)
                <==> settled_in(state.diff, span, path) || self.attributes_of_pads(
                state.mode,
                state.barriers,
                nodes,
                branch_point,
                upto,
                span,
                path,
            ),
        decreases nodes, upto,
    {
        let mode = state.mode;
        let barriers = state.barriers;
        if !(upto <= 1 || upto > nodes.len()) {
            let before = self.branched(state, nodes, branch_point, (upto - 1) as nat);
            let pad = nodes[upto - 1];
            self.lemma_branched(state, nodes, branch_point, (upto - 1) as nat);
            match pad.locations {
                Some((entry, exit)) => {
                    let from = match branch_point {
                        Some(point) => point,
                        None => entry,
                    };
                    let here = self.visible_between(from, exit, true);
                    let opened = before.open(self.places@, here);
                    let walked = self.walked(opened, pad.children@, pad.children@.len());
                    self.lemma_walked(opened, pad.children@, pad.children@.len());
                    assert(!walked.unsupported);
                    assert(!before.unsupported);
                    self.lemma_branched_attributes(
                        state,
                        nodes,
                        branch_point,
                        (upto - 1) as nat,
                        span,
                        path,
                    );
                    self.lemma_walked_attributes(opened, pad.children@, pad.children@.len(), span, path);
                    lemma_scoped_attributes(
                        self.places@,
                        before,
                        here,
                        walked,
                        self.claims_of(mode, barriers, pad.children@, pad.children@.len()),
                        pad.span,
                        span,
                        path,
                        self.attributes_of(
                            mode,
                            barriers,
                            pad.children@,
                            pad.children@.len(),
                            span,
                            path,
                        ),
                    );
                },
                None => {
                    self.lemma_branched_attributes(
                        state,
                        nodes,
                        branch_point,
                        (upto - 1) as nat,
                        span,
                        path,
                    );
                },
            }
        }
    }
}

/// Whether one of the branches among the first `upto` children of an
/// `if` or a `match`, or a node inside it, has the span.
pub open spec fn spans_among_pads(nodes: Seq<Node>, upto: int, span: Span) -> bool {
    exists|i: int| 1 <= i < upto && i < nodes.len() && (#[trigger] nodes[i]).has_span(span)
}

impl PermissionsCtxt {
    /// The scope that is opened for a branch of an `if` or a `match`.
    pub open spec fn scope_of_pad(
        &self,
        mode: PermIncludeMode,
        barriers: Seq<Local>,
        pad: Node,
        branch_point: Option<Point>,
    ) -> ScopeView {
        match pad.locations {
            Some((entry, exit)) => {
                let from = match branch_point {
                    Some(point) => point,
                    None => entry,
                };
                self.scope_of(mode, barriers, self.visible_between(from, exit, true))
            },
            None => Seq::empty(),
        }
    }

    /// The entries of the scopes that are opened while one branch of an
    /// `if` or a `match` is walked.
    pub open spec fn claims_of_pad(
        &self,
        mode: PermIncludeMode,
        barriers: Seq<Local>,
        pad: Node,
        branch_point: Option<Point>,
    ) -> ScopeView {
        match pad.locations {
            Some(_) => self.scope_of_pad(mode, barriers, pad, branch_point) + self.claims_of(
                mode,
                barriers,
                pad.children@,
                pad.children@.len(),
            ),
            None => Seq::empty(),
        }
    }

    /// Whether the walk over one branch of an `if` or a `match` attributes
    /// a change of the path to the span.
    pub open spec fn attributes_of_pad(
        &self,
        mode: PermIncludeMode,
        barriers: Seq<Local>,
        pad: Node,
        branch_point: Option<Point>,
        span: Span,
        path: Path,
    ) -> bool {
        pad.locations is Some && {
            ||| self.attributes_of(mode, barriers, pad.children@, pad.children@.len(), span, path)
            ||| (span == pad.span && has_path(
                shed(
                    self.scope_of_pad(mode, barriers, pad, branch_point),
                    self.claims_of(mode, barriers, pad.children@, pad.children@.len()),
                ),
                path,
            ))
        }
    }

    /// What is attributed is claimed: a change that a visit attributes to
    /// a span is a change of a path that a scope opened during the visit
    /// holds, and the span is that of the node or of a node inside it.
    pub proof fn lemma_attributes_claimed(
        &self,
        mode: PermIncludeMode,
        barriers: Seq<Local>,
        node: Node,
        span: Span,
        path: Path,
    )
        requires
            self.attributes(mode, barriers, node, span, path),
        ensures
            node.has_span(span),
            has_path(self.claims(mode, barriers, node), path),
        decreases node, 1nat,
    {
        let own = self.scope_of(mode, barriers, self.visible_here(node.locations));
        let inside = self.claims_inside(mode, barriers, node);
        lemma_has_path_add(own, inside, path);
        lemma_shed(own, inside, path);
        if self.attributes_inside(mode, barriers, node, span, path) {
            self.lemma_attributes_inside_claimed(mode, barriers, node, span, path);
        }
    }

    /// What is attributed inside a node is claimed inside it.
    pub proof fn lemma_attributes_inside_claimed(
        &self,
        mode: PermIncludeMode,
        barriers: Seq<Local>,
        node: Node,
        span: Span,
        path: Path,
    )
        requires
            self.attributes_inside(mode, barriers, node, span, path),
        ensures
            spans_among(node.children@, node.children@.len() as int, span),
            has_path(self.claims_inside(mode, barriers, node), path),
        decreases node, 0nat,
    {
        let kids = node.children@;
        let n = kids.len();
        let tail = match node.kind {
            NodeKind::Block { tail } => tail,
            _ => false,
        };
        let branches = node.kind is If || node.kind is Match;
        if tail && n > 0 {
            let last = kids[n - 1];
            let first = self.claims_of(mode, barriers, kids, (n - 1) as nat);
            let own = self.scope_of(mode, barriers, self.visible_here(last.locations));
            let second = self.claims(mode, barriers, last);
            lemma_has_path_add(first, own + second, path);
            lemma_has_path_add(own, second, path);
            lemma_shed(own, second, path);
            if self.attributes_of(mode, barriers, kids, (n - 1) as nat, span, path) {
                self.lemma_attributes_of_claimed(mode, barriers, kids, (n - 1) as nat, span, path);
                let i = choose|i: int| 0 <= i < n - 1 && i < kids.len() && (#[trigger] kids[i]).has_span(span);
                assert(kids[i].has_span(span));
            } else if self.attributes(mode, barriers, last, span, path) {
                self.lemma_attributes_claimed(mode, barriers, last, span, path);
                assert(kids[n - 1].has_span(span));
            } else {
                assert(kids[n - 1].has_span(span));
            }
        } else if branches {
            let cond = kids[0];
            let point = self.branch_point(cond);
            let own = self.scope_of(mode, barriers, self.visible_at_condition(cond));
            let in_cond = self.claims_of(mode, barriers, cond.children@, cond.children@.len());
            let in_pads = self.claims_of_pads(mode, barriers, kids, point, n);
            lemma_has_path_add(own + in_cond, in_pads, path);
            lemma_has_path_add(own, in_cond, path);
            lemma_shed(own, in_cond, path);
            if self.attributes_of(mode, barriers, cond.children@, cond.children@.len(), span, path) {
                self.lemma_attributes_of_claimed(
                    mode,
                    barriers,
                    cond.children@,
                    cond.children@.len(),
                    span,
                    path,
                );
                assert(kids[0].has_span(span));
            } else if self.attributes_of_pads(mode, barriers, kids, point, n, span, path) {
                self.lemma_attributes_of_pads_claimed(mode, barriers, kids, point, n, span, path);
                let i = choose|i: int| 1 <= i < n && i < kids.len() && (#[trigger] kids[i]).has_span(span);
                assert(kids[i].has_span(span));
            } else {
                assert(kids[0].has_span(span));
            }
        } else {
            let held = match node.kind {
                NodeKind::Local { binding: Some(local), has_else } => barriers.push(local),
                _ => barriers,
            };
            self.lemma_attributes_of_claimed(mode, held, kids, n, span, path);
        }
    }

    /// What is attributed in a list of nodes is claimed in it.
    pub proof fn lemma_attributes_of_claimed(
        &self,
        mode: PermIncludeMode,
        barriers: Seq<Local>,
        nodes: Seq<Node>,
        upto: nat,
        span: Span,
        path: Path,
    )
        requires
            self.attributes_of(mode, barriers, nodes, upto, span, path),
        ensures
            spans_among(nodes, upto as int, span),
            has_path(self.claims_of(mode, barriers, nodes, upto), path),
        decreases nodes, upto,
    {
        let first = self.claims_of(mode, barriers, nodes, (upto - 1) as nat);
        let second = self.claims(mode, barriers, nodes[upto - 1]);
        lemma_has_path_add(first, second, path);
        if self.attributes_of(mode, barriers, nodes, (upto - 1) as nat, span, path) {
            self.lemma_attributes_of_claimed(mode, barriers, nodes, (upto - 1) as nat, span, path);
            let i = choose|i: int| 0 <= i < upto - 1 && i < nodes.len() && (#[trigger] nodes[i]).has_span(span);
            assert(nodes[i].has_span(span));
        } else {
            self.lemma_attributes_claimed(mode, barriers, nodes[upto - 1], span, path);
            assert(nodes[upto - 1].has_span(span));
        }
    }

    /// What is attributed in the branches of an `if` or a `match` is
    /// attributed in one of them, and claimed there.
    pub proof fn lemma_attributes_of_pads_claimed(
        &self,
        mode: PermIncludeMode,
        barriers: Seq<Local>,
        nodes: Seq<Node>,
        branch_point: Option<Point>,
        upto: nat,
        span: Span,
        path: Path,
    )
        requires
            self.attributes_of_pads(mode, barriers, nodes, branch_point, upto, span, path),
        ensures
            spans_among_pads(nodes, upto as int, span),
            has_path(self.claims_of_pads(mode, barriers, nodes, branch_point, upto), path),
            exists|i: int|
                1 <= i < upto && i < nodes.len() && self.attributes_of_pad(
                    mode,
                    barriers,
                    #[trigger] nodes[i],
                    branch_point,
                    span,
                    path,
                ),
        decreases nodes, upto,
    {
        let pad = nodes[upto - 1];
        let first = self.claims_of_pads(mode, barriers, nodes, branch_point, (upto - 1) as nat);
        let second = self.claims_of_pad(mode, barriers, pad, branch_point);
        lemma_has_path_add(first, second, path);
        if self.attributes_of_pads(mode, barriers, nodes, branch_point, (upto - 1) as nat, span, path) {
            self.lemma_attributes_of_pads_claimed(
                mode,
                barriers,
                nodes,
                branch_point,
                (upto - 1) as nat,
                span,
                path,
            );
            let i = choose|i: int|
                1 <= i < upto - 1 && i < nodes.len() && (#[trigger] nodes[i]).has_span(span);
            assert(nodes[i].has_span(span));
            let j = choose|j: int|
                1 <= j < upto - 1 && j < nodes.len() && self.attributes_of_pad(
                    mode,
                    barriers,
                    #[trigger] nodes[j],
                    branch_point,
                    span,
                    path,
                );
            assert(self.attributes_of_pad(mode, barriers, nodes[j], branch_point, span, path));
        } else {
            assert(self.attributes_of_pad(mode, barriers, nodes[upto - 1], branch_point, span, path));
            let own = self.scope_of_pad(mode, barriers, pad, branch_point);
            let inside = self.claims_of(mode, barriers, pad.children@, pad.children@.len());
            lemma_has_path_add(own, inside, path);
            lemma_shed(own, inside, path);
            if self.attributes_of(mode, barriers, pad.children@, pad.children@.len(), span, path) {
                self.lemma_attributes_of_claimed(
                    mode,
                    barriers,
                    pad.children@,
                    pad.children@.len(),
                    span,
                    path,
                );
            }
            assert(nodes[upto - 1].has_span(span));
        }
    }

    /// What one branch of an `if` or a `match` claims and attributes, the
    /// branches together claim and attribute.
    pub proof fn lemma_pad_among_pads(
        &self,
        mode: PermIncludeMode,
        barriers: Seq<Local>,
        nodes: Seq<Node>,
        branch_point: Option<Point>,
        upto: nat,
        k: int,
        span: Span,
        path: Path,
    )
        requires
            1 <= k < upto <= nodes.len(),
        ensures
            has_path(self.claims_of_pad(mode, barriers, nodes[k], branch_point), path) ==> has_path(
                self.claims_of_pads(mode, barriers, nodes, branch_point, upto),
                path,
            ),
            self.attributes_of_pad(mode, barriers, nodes[k], branch_point, span, path)
                ==> self.attributes_of_pads(mode, barriers, nodes, branch_point, upto, span, path),
        decreases upto,
    {
        let first = self.claims_of_pads(mode, barriers, nodes, branch_point, (upto - 1) as nat);
        let second = self.claims_of_pad(mode, barriers, nodes[upto - 1], branch_point);
        lemma_has_path_add(first, second, path);
        if k < upto - 1 {
            self.lemma_pad_among_pads(mode, barriers, nodes, branch_point, (upto - 1) as nat, k, span, path);
        }
    }

    /// A change that only one branch claims shows at that branch alone.
    ///
    /// The node is an `if` or a `match` whose visit does not stop, and
    /// `k` is one of its branches. The branch holds the change of the path
    /// in its scope: the path's capabilities differ between the branch
    /// point and the end of the branch. No scope inside the branch claims
    /// the path, nor does the scope of the condition or of another
    /// branch, or a scope inside them. Before the visit nothing of the
    /// path is settled under a span of the node. Then the change is settled
    /// under the span of the branch, and under no other span of the node:
    /// not under the span of the `if`, of its condition, or of another
    /// branch.
    pub proof fn lemma_branch_alone(&self, state: FlowView, node: Node, k: int, path: Path)
        requires
            node.kind is If || node.kind is Match,
            !self.visited(state, node).unsupported,
            1 <= k < node.children@.len(),
            node.children@[k].locations is Some,
            has_path(
                self.scope_of_pad(
                    state.mode,
                    state.barriers,
                    node.children@[k],
                    self.branch_point(node.children@[0]),
                ),
                path,
            ),
            !has_path(
                self.claims_of(
                    state.mode,
                    state.barriers,
                    node.children@[k].children@,
                    node.children@[k].children@.len(),
                ),
                path,
            ),
            !has_path(
                self.scope_of(
                    state.mode,
                    state.barriers,
                    self.visible_at_condition(node.children@[0]),
                ) + self.claims_of(
                    state.mode,
                    state.barriers,
                    node.children@[0].children@,
                    node.children@[0].children@.len(),
                ),
                path,
            ),
            forall|j: int|
                1 <= j < node.children@.len() && j != k ==> !has_path(
                    self.claims_of_pad(
                        state.mode,
                        state.barriers,
                        #[trigger] node.children@[j],
                        self.branch_point(node.children@[0]),
                    ),
                    path,
                ),
            forall|span: Span| node.has_span(span) ==> !#[trigger] settled_in(state.diff, span, path),
        ensures
            settled_in(self.visited(state, node).diff, node.children@[k].span, path),
            forall|span: Span|
                node.has_span(span) && #[trigger] settled_in(
                    self.visited(state, node).diff,
                    span,
                    path,
                ) ==> span == node.children@[k].span,
    {
        let mode = state.mode;
        let barriers = state.barriers;
        let kids = node.children@;
        let n = kids.len();
        let cond = kids[0];
        let pad = kids[k];
        let point = self.branch_point(cond);
        let out = self.visited(state, node);
        let own = self.scope_of_pad(mode, barriers, pad, point);
        let in_pad = self.claims_of(mode, barriers, pad.children@, pad.children@.len());
        lemma_shed(own, in_pad, path);
        lemma_has_path_add(own, in_pad, path);
        assert(self.attributes_of_pad(mode, barriers, pad, point, pad.span, path));
        self.lemma_pad_among_pads(mode, barriers, kids, point, n, k, pad.span, path);
        assert(self.attributes_inside(mode, barriers, node, pad.span, path));
        self.lemma_visited_attributes(state, node, pad.span, path);
        let here = self.scope_of(mode, barriers, self.visible_here(node.locations));
        let inside = self.claims_inside(mode, barriers, node);
        let kept_cond = self.scope_of(mode, barriers, self.visible_at_condition(cond));
        let in_cond = self.claims_of(mode, barriers, cond.children@, cond.children@.len());
        let in_pads = self.claims_of_pads(mode, barriers, kids, point, n);
        lemma_has_path_add(kept_cond + in_cond, in_pads, path);
        assert(has_path(inside, path));
        lemma_shed(here, inside, path);
        assert forall|span: Span|
            node.has_span(span) && #[trigger] settled_in(out.diff, span, path) implies span
            == pad.span by {
            self.lemma_visited_attributes(state, node, span, path);
            assert(!settled_in(state.diff, span, path));
            assert(self.attributes(mode, barriers, node, span, path));
            assert(self.attributes_inside(mode, barriers, node, span, path));
            lemma_has_path_add(kept_cond, in_cond, path);
            lemma_shed(kept_cond, in_cond, path);
            if self.attributes_of(mode, barriers, cond.children@, cond.children@.len(), span, path) {
                self.lemma_attributes_of_claimed(
                    mode,
                    barriers,
                    cond.children@,
                    cond.children@.len(),
                    span,
                    path,
                );
            }
            assert(self.attributes_of_pads(mode, barriers, kids, point, n, span, path));
            self.lemma_attributes_of_pads_claimed(mode, barriers, kids, point, n, span, path);
            let j = choose|j: int|
                1 <= j < n && j < kids.len() && self.attributes_of_pad(
                    mode,
                    barriers,
                    #[trigger] kids[j],
                    point,
                    span,
                    path,
                );
            if j != k {
                let own_j = self.scope_of_pad(mode, barriers, kids[j], point);
                let in_j = self.claims_of(mode, barriers, kids[j].children@, kids[j].children@.len());
                lemma_has_path_add(own_j, in_j, path);
                lemma_shed(own_j, in_j, path);
                if self.attributes_of(mode, barriers, kids[j].children@, kids[j].children@.len(), span, path) {
                    self.lemma_attributes_of_claimed(
                        mode,
                        barriers,
                        kids[j].children@,
                        kids[j].children@.len(),
                        span,
                        path,
                    );
                }
                assert(false);
            } else {
                if self.attributes_of(mode, barriers, pad.children@, pad.children@.len(), span, path) {
                    self.lemma_attributes_of_claimed(
                        mode,
                        barriers,
                        pad.children@,
                        pad.children@.len(),
                        span,
                        path,
                    );
                }
            }
        }
    }
}

} // verus!
