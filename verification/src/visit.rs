//! The walk over a function's syntax tree, which attaches each change of a
//! capability to the innermost node whose execution contains it.

use crate::context::PermissionsCtxt;
use crate::flow::{
    exclusive, kept, replaced, settle, FlowView, HirPermDiffFlow, Scope, ScopeView,
};
use crate::permissions::{Permissions, PermissionsData, PermissionsDomain};
use crate::place::{Local, Point};
use crate::sinking::keeps_frame;
use crate::span::Span;
use crate::stepper::{domain_step, Difference, PermIncludeMode};
use vstd::prelude::*;

verus! {

/// What a node of the syntax tree is, as far as the walk tells nodes apart.
#[derive(Clone, Copy, Debug)]
pub enum NodeKind {
    /// A statement.
    Stmt,
    /// A block; with `tail`, its last child is the expression that it ends
    /// in.
    Block { tail: bool },
    /// A `let`, with the local that it assigns and whether it has an `else`.
    Local { binding: Option<Local>, has_else: bool },
    /// An `if`: its first child is the condition, the others the branches.
    If,
    /// A `match`: its first child is the scrutinee, the others the arms.
    Match,
    /// Any other expression or pattern.
    Other,
}

/// A node of the syntax tree with its children in program order.
#[derive(Debug)]
pub struct Node {
    pub kind: NodeKind,
    pub span: Span,
    /// The points at which the node's execution begins and ends; none for a
    /// node that is never executed.
    pub locations: Option<(Point, Point)>,
    pub children: Vec<Node>,
}

/// The points are among the `n_points` described.
pub open spec fn locations_known(locations: Option<(Point, Point)>, n_points: int) -> bool {
    match locations {
        Some((entry, exit)) => entry < n_points && exit < n_points,
        None => true,
    }
}

/// Every node of the list names only points among the `n_points` described.
pub open spec fn all_known(nodes: Seq<Node>, n_points: int) -> bool {
    forall|i: int| 0 <= i < nodes.len() ==> (#[trigger] nodes[i]).known(n_points)
}

impl Node {
    /// Every point that the tree names is one of the `n_points` described.
    pub open spec fn known(self, n_points: int) -> bool
        decreases self,
    {
        &&& locations_known(self.locations, n_points)
        &&& forall|i: int|
            0 <= i < self.children@.len() ==> (#[trigger] self.children@[i]).known(n_points)
    }

    /// Tests whether every point that the tree names is described.
    pub fn is_well_formed(&self, n_points: usize) -> (r: bool)
        ensures
            r == self.known(n_points as int),
        decreases self,
    {
        match self.locations {
            Some((entry, exit)) => {
                if entry >= n_points || exit >= n_points {
                    return false;
                }
            },
            None => {},
        }
        let mut i: usize = 0;
        while i < self.children.len()
            invariant
                i <= self.children.len(),
                forall|k: int| 0 <= k < i ==> (#[trigger] self.children@[k]).known(n_points as int),
            decreases self.children.len() - i,
        {
            if !self.children[i].is_well_formed(n_points) {
                return false;
            }
            i += 1;
        }
        true
    }
}

impl PermissionsCtxt {
    /// The domain at the end of a node: after the effect of its last point,
    /// where that is asked for and known.
    pub open spec fn exit_domain(&self, exit: Point, after_effect: bool) -> Seq<PermissionsData> {
        if after_effect {
            match self.domain_after(exit) {
                Some(domain) => domain,
                None => self.domain_at(exit),
            }
        } else {
            self.domain_at(exit)
        }
    }

    /// The differences between the domains at two points.
    pub open spec fn visible_between(&self, entry: Point, exit: Point, after_effect: bool) -> ScopeView {
        domain_step(self.domain_at(entry), self.exit_domain(exit, after_effect))
    }

    /// The differences that the execution of a node makes.
    pub open spec fn visible_here(&self, locations: Option<(Point, Point)>) -> ScopeView {
        match locations {
            Some((entry, exit)) => self.visible_between(entry, exit, true),
            None => Seq::empty(),
        }
    }

    /// The state of the walk when a node has been visited.
    ///
    /// A statement, a block, an `if` and a `match` open a scope for what
    /// their execution changes, visit what is inside, and settle what is
    /// left of the scope under their span. The expression that a block ends
    /// in gets a scope of its own. A `let` holds the changes of its local
    /// back while its initializer is visited; one with an `else` stops the
    /// walk. Of an `if` or a `match` the condition is walked in a scope that
    /// ends at the branch point, and each branch in a scope that begins
    /// there. Any other node is walked through.
    pub open spec fn visited(&self, state: FlowView, node: Node) -> FlowView
        decreases node, 0nat,
    {
        let places = self.places@;
        let kids = node.children@;
        if state.unsupported {
            state
        } else {
            match node.kind {
                NodeKind::Stmt => {
                    let opened = state.open(places, self.visible_here(node.locations));
                    self.walked(opened, kids, kids.len()).close(node.span)
                },
                NodeKind::Block { tail } => {
                    let opened = state.open(places, self.visible_here(node.locations));
                    if tail && kids.len() > 0 {
                        let last = kids[kids.len() - 1];
                        let stmts = self.walked(opened, kids, (kids.len() - 1) as nat);
                        let inner = stmts.open(places, self.visible_here(last.locations));
                        self.visited(inner, last).close(last.span).close(node.span)
                    } else {
                        self.walked(opened, kids, kids.len()).close(node.span)
                    }
                },
                NodeKind::Local { binding, has_else } => {
                    let held = match binding {
                        Some(local) => state.hold_back(local),
                        None => state,
                    };
                    let init = self.walked(held, kids, kids.len());
                    if has_else {
                        init.stopped()
                    } else {
                        match binding {
                            Some(_) => init.release(),
                            None => init,
                        }
                    }
                },
                NodeKind::If | NodeKind::Match => {
                    let opened = state.open(places, self.visible_here(node.locations));
                    if kids.len() == 0 {
                        opened.close(node.span)
                    } else {
                        let cond = kids[0];
                        let here = match cond.locations {
                            Some((entry, exit)) => self.visible_between(entry, exit, false),
                            None => Seq::empty(),
                        };
                        let branch_point = match cond.locations {
                            Some((_, exit)) => Some(exit),
                            None => None,
                        };
                        let tested = self.walked(
                            opened.open(places, here),
                            cond.children@,
                            cond.children@.len(),
                        ).close(cond.span);
                        self.branched(tested, kids, branch_point, kids.len()).close(node.span)
                    }
                },
                NodeKind::Other => self.walked(state, kids, kids.len()),
            }
        }
    }

    /// The state of the walk when the first `upto` nodes of a list have
    /// been visited in their order.
    pub open spec fn walked(&self, state: FlowView, nodes: Seq<Node>, upto: nat) -> FlowView
        decreases nodes, upto,
    {
        if upto == 0 || upto > nodes.len() {
            state
        } else {
            self.visited(self.walked(state, nodes, (upto - 1) as nat), nodes[upto - 1])
        }
    }

    /// The state of the walk when the branches among the first `upto`
    /// children of an `if` or a `match` have been walked: each branch that
    /// is executed, in a scope that begins at the branch point.
    pub open spec fn branched(
        &self,
        state: FlowView,
        nodes: Seq<Node>,
        branch_point: Option<Point>,
        upto: nat,
    ) -> FlowView
        decreases nodes, upto,
    {
        if upto <= 1 || upto > nodes.len() {
            state
        } else {
            let before = self.branched(state, nodes, branch_point, (upto - 1) as nat);
            let pad = nodes[upto - 1];
            match pad.locations {
                Some((entry, exit)) => {
                    let from = match branch_point {
                        Some(point) => point,
                        None => entry,
                    };
                    let here = self.visible_between(from, exit, true);
                    self.walked(
                        before.open(self.places@, here),
                        pad.children@,
                        pad.children@.len(),
                    ).close(pad.span)
                },
                None => before,
            }
        }
    }
}

/// The differences between the domains at two points.
fn visibility_between(ctxt: &PermissionsCtxt, entry: Point, exit: Point, after_effect: bool) -> (here:
    Scope)
    requires
        ctxt.facts.wf(),
        entry < ctxt.facts.points@.len(),
        exit < ctxt.facts.points@.len(),
    ensures
        here@ == ctxt.visible_between(entry, exit, after_effect),
{
    let before = ctxt.permissions_domain_at_point(entry);
    let after = if after_effect {
        match ctxt.permissions_domain_after_point_effect(exit) {
            Some(domain) => domain,
            None => ctxt.permissions_domain_at_point(exit),
        }
    } else {
        ctxt.permissions_domain_at_point(exit)
    };
    let from = &before;
    from.diff(&after)
}

/// The differences that the execution of a node makes.
fn visibility_here(ctxt: &PermissionsCtxt, locations: Option<(Point, Point)>) -> (here: Scope)
    requires
        ctxt.facts.wf(),
        locations_known(locations, ctxt.facts.points@.len() as int),
    ensures
        here@ == ctxt.visible_here(locations),
{
    match locations {
        Some((entry, exit)) => visibility_between(ctxt, entry, exit, true),
        None => Vec::new(),
    }
}

impl HirPermDiffFlow {
    /// Visits a node according to its kind.
    pub fn visit(&mut self, ctxt: &PermissionsCtxt, node: &Node)
        requires
            ctxt.facts.wf(),
            node.known(ctxt.facts.points@.len() as int),
        ensures
            final(self)@ == ctxt.visited(old(self)@, *node),
            exclusive(old(self)@.scopes) ==> exclusive(final(self)@.scopes),
            !final(self)@.unsupported ==> keeps_frame(
                old(self)@,
                final(self)@,
                ctxt.claims(old(self)@.mode, old(self)@.barriers, *node),
            ),
        decreases node, 1nat,
    {
        proof {
            ctxt.lemma_visited(self@, *node);
        }
        if self.unsupported {
            return ;
        }
        match node.kind {
            NodeKind::Stmt => self.visit_stmt(ctxt, node),
            NodeKind::Block { .. } => self.visit_block(ctxt, node),
            NodeKind::Local { .. } => self.visit_local(ctxt, node),
            _ => self.visit_expr(ctxt, node),
        }
    }

    /// Visits the first `upto` nodes of a list in their order.
    pub fn walk(&mut self, ctxt: &PermissionsCtxt, nodes: &Vec<Node>, upto: usize)
        requires
            ctxt.facts.wf(),
            all_known(nodes@, ctxt.facts.points@.len() as int),
            upto <= nodes@.len(),
        ensures
            final(self)@ == ctxt.walked(old(self)@, nodes@, upto as nat),
            exclusive(old(self)@.scopes) ==> exclusive(final(self)@.scopes),
        decreases nodes, upto,
    {
        if upto > 0 {
            self.walk(ctxt, nodes, upto - 1);
            self.visit(ctxt, &nodes[upto - 1]);
        }
    }

    /// Visits a statement: what it changes shows at the statement.
    pub fn visit_stmt(&mut self, ctxt: &PermissionsCtxt, stmt: &Node)
        requires
            ctxt.facts.wf(),
            stmt.known(ctxt.facts.points@.len() as int),
            stmt.kind is Stmt,
        ensures
            final(self)@ == ctxt.visited(old(self)@, *stmt),
            exclusive(old(self)@.scopes) ==> exclusive(final(self)@.scopes),
            !final(self)@.unsupported ==> keeps_frame(
                old(self)@,
                final(self)@,
                ctxt.claims(old(self)@.mode, old(self)@.barriers, *stmt),
            ),
        decreases stmt, 0nat,
    {
        proof {
            ctxt.lemma_visited(self@, *stmt);
        }
        if self.unsupported {
            return ;
        }
        let here = visibility_here(ctxt, stmt.locations);
        self.open_scope(ctxt, &here);
        self.walk(ctxt, &stmt.children, stmt.children.len());
        self.close_scope(stmt.span);
    }

    /// Visits a block: its statements in turn, and the expression that it
    /// ends in within a scope of its own.
    pub fn visit_block(&mut self, ctxt: &PermissionsCtxt, block: &Node)
        requires
            ctxt.facts.wf(),
            block.known(ctxt.facts.points@.len() as int),
            block.kind is Block,
        ensures
            final(self)@ == ctxt.visited(old(self)@, *block),
            exclusive(old(self)@.scopes) ==> exclusive(final(self)@.scopes),
            !final(self)@.unsupported ==> keeps_frame(
                old(self)@,
                final(self)@,
                ctxt.claims(old(self)@.mode, old(self)@.barriers, *block),
            ),
        decreases block, 0nat,
    {
        proof {
            ctxt.lemma_visited(self@, *block);
        }
        if self.unsupported {
            return ;
        }
        let tail = match block.kind {
            NodeKind::Block { tail } => tail,
            _ => false,
        };
        let here = visibility_here(ctxt, block.locations);
        self.open_scope(ctxt, &here);
        let n = block.children.len();
        if tail && n > 0 {
            self.walk(ctxt, &block.children, n - 1);
            let expr = &block.children[n - 1];
            assert(block.children@[n - 1].known(ctxt.facts.points@.len() as int));
            let inner = visibility_here(ctxt, expr.locations);
            self.open_scope(ctxt, &inner);
            self.visit(ctxt, expr);
            self.close_scope(expr.span);
        } else {
            self.walk(ctxt, &block.children, n);
        }
        self.close_scope(block.span);
    }

    /// Visits a `let`: while its initializer is visited, no scope takes the
    /// changes of the local that it assigns. A `let` with an `else` stops
    /// the walk.
    pub fn visit_local(&mut self, ctxt: &PermissionsCtxt, local: &Node)
        requires
            ctxt.facts.wf(),
            local.known(ctxt.facts.points@.len() as int),
            local.kind is Local,
        ensures
            final(self)@ == ctxt.visited(old(self)@, *local),
            exclusive(old(self)@.scopes) ==> exclusive(final(self)@.scopes),
            !final(self)@.unsupported ==> keeps_frame(
                old(self)@,
                final(self)@,
                ctxt.claims(old(self)@.mode, old(self)@.barriers, *local),
            ),
        decreases local, 0nat,
    {
        proof {
            ctxt.lemma_visited(self@, *local);
        }
        if self.unsupported {
            return ;
        }
        let (binding, has_else) = match local.kind {
            NodeKind::Local { binding, has_else } => (binding, has_else),
            _ => (None, false),
        };
        let mut added_barrier = false;
        if let Some(assigned) = binding {
            self.push_barrier(assigned);
            added_barrier = true;
        }
        self.walk(ctxt, &local.children, local.children.len());
        if has_else {
            self.unsupported = true;
            return ;
        }
        if added_barrier {
            self.pop_barrier();
        }
    }

    /// Visits an expression: an `if` and a `match` with their branches,
    /// any other by its parts.
    pub fn visit_expr(&mut self, ctxt: &PermissionsCtxt, expr: &Node)
        requires
            ctxt.facts.wf(),
            expr.known(ctxt.facts.points@.len() as int),
            expr.kind is If || expr.kind is Match || expr.kind is Other,
        ensures
            final(self)@ == ctxt.visited(old(self)@, *expr),
            exclusive(old(self)@.scopes) ==> exclusive(final(self)@.scopes),
            !final(self)@.unsupported ==> keeps_frame(
                old(self)@,
                final(self)@,
                ctxt.claims(old(self)@.mode, old(self)@.barriers, *expr),
            ),
        decreases expr, 0nat,
    {
        proof {
            ctxt.lemma_visited(self@, *expr);
        }
        if self.unsupported {
            return ;
        }
        match expr.kind {
            NodeKind::If | NodeKind::Match => {
                let here = visibility_here(ctxt, expr.locations);
                self.open_scope(ctxt, &here);
                if expr.children.len() > 0 {
                    self.with_seamless_branching(ctxt, &expr.children);
                }
                self.close_scope(expr.span);
            },
            _ => {
                self.walk(ctxt, &expr.children, expr.children.len());
            },
        }
    }

    /// Walks the condition and the branches of an `if` or a `match`, which
    /// are the nodes of the list: the condition in a scope that ends at the
    /// branch point, each branch in a scope that begins there.
    fn with_seamless_branching(&mut self, ctxt: &PermissionsCtxt, nodes: &Vec<Node>)
        requires
            ctxt.facts.wf(),
            all_known(nodes@, ctxt.facts.points@.len() as int),
            nodes@.len() > 0,
        ensures
            final(self)@ == ({
                let cond = nodes@[0];
                let here = match cond.locations {
                    Some((entry, exit)) => ctxt.visible_between(entry, exit, false),
                    None => Seq::empty(),
                };
                let branch_point = match cond.locations {
                    Some((_, exit)) => Some(exit),
                    None => None,
                };
                let tested = ctxt.walked(
                    old(self)@.open(ctxt.places@, here),
                    cond.children@,
                    cond.children@.len(),
                ).close(cond.span);
                ctxt.branched(tested, nodes@, branch_point, nodes@.len())
            }),
            exclusive(old(self)@.scopes) ==> exclusive(final(self)@.scopes),
        decreases nodes, nodes@.len() + 1,
    {
        let cond = &nodes[0];
        let (here, branch_point) = match cond.locations {
            Some((entry, exit)) => (visibility_between(ctxt, entry, exit, false), Some(exit)),
            None => (Vec::new(), None),
        };
        self.open_scope(ctxt, &here);
        self.walk(ctxt, &cond.children, cond.children.len());
        self.close_scope(cond.span);
        self.branch(ctxt, nodes, branch_point, nodes.len());
    }

    /// Walks the branches among the first `upto` children of an `if` or a
    /// `match`.
    fn branch(
        &mut self,
        ctxt: &PermissionsCtxt,
        nodes: &Vec<Node>,
        branch_point: Option<Point>,
        upto: usize,
    )
        requires
            ctxt.facts.wf(),
            all_known(nodes@, ctxt.facts.points@.len() as int),
            branch_point matches Some(point) ==> point < ctxt.facts.points@.len(),
            upto <= nodes@.len(),
        ensures
            final(self)@ == ctxt.branched(old(self)@, nodes@, branch_point, upto as nat),
            exclusive(old(self)@.scopes) ==> exclusive(final(self)@.scopes),
        decreases nodes, upto,
    {
        if upto > 1 {
            self.branch(ctxt, nodes, branch_point, upto - 1);
            let pad = &nodes[upto - 1];
            match pad.locations {
                Some((entry, exit)) => {
                    let from = match branch_point {
                        Some(point) => point,
                        None => entry,
                    };
                    let here = visibility_between(ctxt, from, exit, true);
                    self.open_scope(ctxt, &here);
                    self.walk(ctxt, &pad.children, pad.children.len());
                    self.close_scope(pad.span);
                },
                None => {},
            }
        }
    }
}

/// What is known of a path before the function begins: nothing.
pub open spec fn bottom_data() -> PermissionsData {
    PermissionsData {
        is_live: false,
        type_droppable: false,
        type_writeable: false,
        type_copyable: false,
        path_moved: false,
        loan_read_refined: None,
        loan_write_refined: None,
        loan_drop_refined: None,
        permissions: Permissions { read: false, write: false, drop: false },
    }
}

impl PermissionsCtxt {
    /// The state of the walk when a function body has been entered: what
    /// the paths hold where the body begins, and did not hold before, is
    /// settled at the start of the body.
    pub open spec fn entered(&self, state: FlowView, body: Node) -> FlowView {
        match body.locations {
            Some((entry, _)) if !state.unsupported => {
                let bottom = Seq::new(self.places@.len(), |path: int| bottom_data());
                let gained = kept(
                    self.places@,
                    state.mode,
                    Seq::empty(),
                    domain_step(bottom, self.domain_at(entry)),
                );
                FlowView {
                    diff: replaced(state.diff, Span { lo: body.span.lo, hi: body.span.lo }, gained),
                    ..state
                }
            },
            _ => state,
        }
    }

    /// The state of the walk over a function body in a mode.
    pub open spec fn traversed(&self, mode: PermIncludeMode, body: Node) -> FlowView {
        let start = FlowView {
            mode,
            diff: Seq::empty(),
            barriers: Seq::empty(),
            scopes: Seq::empty(),
            unsupported: false,
        };
        self.visited(self.entered(start, body), body)
    }
}

impl HirPermDiffFlow {
    /// The domain before the function begins: no path holds anything.
    pub fn domain_bottom(&self, ctxt: &PermissionsCtxt) -> (domain: PermissionsDomain)
        ensures
            domain@ == Seq::new(ctxt.places@.len(), |path: int| bottom_data()),
    {
        let mut entries: Vec<PermissionsData> = Vec::new();
        let n = ctxt.places.len();
        let mut path: usize = 0;
        while path < n
            invariant
                path <= n,
                entries@.len() == path,
                forall|k: int| 0 <= k < path ==> entries@[k] == bottom_data(),
            decreases n - path,
        {
            entries.push(
                PermissionsData {
                    is_live: false,
                    type_droppable: false,
                    type_writeable: false,
                    type_copyable: false,
                    path_moved: false,
                    loan_read_refined: None,
                    loan_write_refined: None,
                    loan_drop_refined: None,
                    permissions: Permissions::bottom(),
                },
            );
            path += 1;
        }
        assert(entries@ =~= Seq::new(ctxt.places@.len(), |path: int| bottom_data()));
        PermissionsDomain { entries }
    }

    /// Visits a function body: what the paths gain where the body begins is
    /// settled at its start, then the body is visited.
    pub fn visit_body(&mut self, ctxt: &PermissionsCtxt, body: &Node)
        requires
            ctxt.facts.wf(),
            body.known(ctxt.facts.points@.len() as int),
        ensures
            final(self)@ == ctxt.visited(ctxt.entered(old(self)@, *body), *body),
            exclusive(old(self)@.scopes) ==> exclusive(final(self)@.scopes),
    {
        if self.unsupported {
            return ;
        }
        match body.locations {
            Some((entry, _)) => {
                let empty_domain = self.domain_bottom(ctxt);
                let entry_domain = ctxt.permissions_domain_at_point(entry);
                let from = &empty_domain;
                let gained = from.diff(&entry_domain);
                let no_barriers: Vec<Local> = Vec::new();
                let d = self.keep(ctxt, &gained, &no_barriers);
                settle(&mut self.diff, body.span.shrink_to_lo(), d, true);
            },
            None => {},
        }
        self.visit(ctxt, body);
    }
}

} // verus!
