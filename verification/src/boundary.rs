//! Permission boundaries: the places where the capabilities that a method
//! expects of its receiver meet the ones that the receiver has.

use crate::context::{lemma_refiners_known, PermissionsCtxt};
use crate::facts::holds_pair;
use crate::permissions::{expected_permissions, Mutability, Permissions};
use crate::place::{Loan, Local, Path, Point};
use crate::regions::{find_loan_refinement, RefinementRegion};
use crate::span::{Range, Span};
use std::collections::HashMap;
use vstd::prelude::*;

verus! {

broadcast use vstd::std_specs::hash::group_hash_axioms;

/// Why a capability that is expected is not there.
#[derive(Clone, Debug, PartialEq)]
pub enum MissingPermReason {
    /// The path's type or declaration never grants it.
    InsufficientType,
    /// A loan takes it away for a while.
    Refined(RefinementRegion),
}

/// For each capability that is expected and missing, the reason.
#[derive(Clone, Debug, PartialEq)]
pub struct MissingPermsInfo {
    pub read: Option<MissingPermReason>,
    pub write: Option<MissingPermReason>,
    pub drop: Option<MissingPermReason>,
}

/// A point where the capabilities that are there are held against the ones
/// that are expected: a method call on a receiver.
#[derive(Clone, Debug, PartialEq)]
pub struct PermissionsBoundary {
    /// The character offset just before the method's name.
    pub location: usize,
    pub expected: Permissions,
    pub actual: Permissions,
    /// The receiver is a copy of the path, which may be dropped on its own.
    pub was_copied: bool,
    pub explanations: MissingPermsInfo,
}

/// What an assignment reads.
#[derive(Clone, Copy, Debug, PartialEq, Eq, Structural)]
pub enum Operand {
    Copy(Path),
    Move(Path),
    Constant,
}

/// The right-hand side of an assignment.
#[derive(Clone, Copy, Debug, PartialEq, Eq, Structural)]
pub enum Rvalue {
    /// A reference to a path is taken.
    Ref(Path),
    /// A value is used as it is.
    Use(Operand),
    /// Anything else.
    Other,
}

/// A point that defines a local, and what is assigned there where the point
/// is an assignment.
#[derive(Clone, Copy, Debug)]
pub struct Definition {
    pub local: Local,
    pub point: Point,
    pub assigned: Option<Rvalue>,
}

/// A call instruction of the control-flow graph.
#[derive(Clone, Copy, Debug)]
pub struct CallSite {
    pub point: Point,
    /// The span of the callee's name and arguments.
    pub fn_span: Span,
    /// The path that is passed as the receiver.
    pub receiver: Path,
}

/// A method call of the source text.
#[derive(Clone, Copy, Debug)]
pub struct MethodCall {
    /// The span of the method's name and arguments.
    pub fn_span: Span,
    /// How the method's first parameter refers to the receiver, if it is a
    /// reference.
    pub receiver_type: Option<Mutability>,
}

/// What is known of the calls of a function body.
#[derive(Debug)]
pub struct BodyCalls {
    pub call_sites: Vec<CallSite>,
    /// The points that define locals, in any order.
    pub definitions: Vec<Definition>,
    /// The pairs of points of which the first can run before the second.
    pub predecessors: Vec<(Point, Point)>,
}

/// The call sites whose span overlaps the span of a method call.
pub open spec fn candidates(sites: Seq<CallSite>, fn_span: Span) -> Seq<CallSite>
    decreases sites.len(),
{
    if sites.len() == 0 {
        Seq::empty()
    } else {
        let front = candidates(sites.drop_last(), fn_span);
        if sites.last().fn_span.spec_overlaps(fn_span) {
            front.push(sites.last())
        } else {
            front
        }
    }
}

/// The first point can run before the second, and not the second before
/// the first.
pub open spec fn strictly_before(predecessors: Seq<(Point, Point)>, a: Point, b: Point) -> bool {
    predecessors.contains((a, b)) && !predecessors.contains((b, a))
}

/// None of the first `n` sites runs strictly before the site `i`.
pub open spec fn unpreceded_by(
    predecessors: Seq<(Point, Point)>,
    sites: Seq<CallSite>,
    i: int,
    n: int,
) -> bool {
    forall|j: int|
        0 <= j < n && j < sites.len() ==> !strictly_before(
            predecessors,
            (#[trigger] sites[j]).point,
            sites[i].point,
        )
}

/// The site that stands for a method call: from `from` on, the first site
/// that no site runs strictly before; the first site of all if there is
/// none.
pub open spec fn first_unpreceded(predecessors: Seq<(Point, Point)>, sites: Seq<CallSite>, from: int) -> int
    decreases sites.len() - from,
{
    if from < 0 || from >= sites.len() {
        0
    } else if unpreceded_by(predecessors, sites, from, sites.len() as int) {
        from
    } else {
        first_unpreceded(predecessors, sites, from + 1)
    }
}

/// Why a method call that has a call site gets no boundary.
#[derive(Clone, Copy, Debug, PartialEq, Eq, Structural)]
pub enum BoundaryError {
    /// The receiver is assigned, at the point given, something that is
    /// neither a reference to a path nor the use of a path.
    UnsupportedAssignment { point: Point },
}

/// The definition assigns the local.
pub open spec fn assigns(definition: Definition, local: Local) -> bool {
    definition.local == local && definition.assigned is Some
}

/// From `from` on, the first definition that assigns the local.
pub open spec fn first_definition(definitions: Seq<Definition>, local: Local, from: int) -> Option<int>
    decreases definitions.len() - from,
{
    if from < 0 || from >= definitions.len() {
        None
    } else if assigns(definitions[from], local) {
        Some(from)
    } else {
        first_definition(definitions, local, from + 1)
    }
}

/// None of the first `n` definitions that assign the local runs strictly
/// after the definition `i`.
pub open spec fn unfollowed_by(
    predecessors: Seq<(Point, Point)>,
    definitions: Seq<Definition>,
    local: Local,
    i: int,
    n: int,
) -> bool {
    forall|j: int|
        0 <= j < n && j < definitions.len() && assigns(#[trigger] definitions[j], local)
            ==> !strictly_before(predecessors, definitions[i].point, definitions[j].point)
}

/// From `from` on, the first assignment of the local that no assignment of
/// the local runs strictly after.
pub open spec fn first_unfollowed(
    predecessors: Seq<(Point, Point)>,
    definitions: Seq<Definition>,
    local: Local,
    from: int,
) -> Option<int>
    decreases definitions.len() - from,
{
    if from < 0 || from >= definitions.len() {
        None
    } else if assigns(definitions[from], local) && unfollowed_by(
        predecessors,
        definitions,
        local,
        from,
        definitions.len() as int,
    ) {
        Some(from)
    } else {
        first_unfollowed(predecessors, definitions, local, from + 1)
    }
}

/// The most recent assignment of a local: the assignment that no other
/// assignment of the local runs strictly after, and of several such the
/// one that is listed first. Where the order of the points leaves no such
/// assignment, the assignment that is listed first counts.
pub open spec fn latest_definition(
    predecessors: Seq<(Point, Point)>,
    definitions: Seq<Definition>,
    local: Local,
) -> Option<int> {
    match first_unfollowed(predecessors, definitions, local, 0) {
        Some(d) => Some(d),
        None => first_definition(definitions, local, 0),
    }
}

/// What an assignment gives as the path and the point that a receiver
/// stands for, and whether the receiver is a copy: the path that is
/// referred to or used, at the point of the assignment. Nothing for another
/// assignment.
pub open spec fn traced(definition: Definition) -> Option<(Path, Point, bool)> {
    match definition.assigned {
        Some(Rvalue::Ref(path)) => Some((path, definition.point, false)),
        Some(Rvalue::Use(Operand::Copy(path))) => Some((path, definition.point, true)),
        Some(Rvalue::Use(Operand::Move(path))) => Some((path, definition.point, false)),
        _ => None,
    }
}

/// The path and the point that a receiver stands for, and whether the
/// receiver is a copy: what the most recent assignment of the receiver's
/// local gives; the receiver itself at the call where its local is not
/// assigned.
pub open spec fn resolved(
    predecessors: Seq<(Point, Point)>,
    definitions: Seq<Definition>,
    local: Local,
    site: CallSite,
) -> Option<(Path, Point, bool)> {
    match latest_definition(predecessors, definitions, local) {
        None => Some((site.receiver, site.point, false)),
        Some(d) => traced(definitions[d]),
    }
}

/// The point at which the most recent assignment of a local assigns
/// something that is not supported; none where the local is not assigned
/// and where its most recent assignment can be traced.
pub open spec fn unsupported_at(
    predecessors: Seq<(Point, Point)>,
    definitions: Seq<Definition>,
    local: Local,
) -> Option<Point> {
    match latest_definition(predecessors, definitions, local) {
        Some(d) => if traced(definitions[d]) is None {
            Some(definitions[d].point)
        } else {
            None
        },
        None => None,
    }
}

/// A path that an assignment names, if it names one.
pub open spec fn assigned_path(assigned: Option<Rvalue>) -> Option<Path> {
    match assigned {
        Some(Rvalue::Ref(path)) => Some(path),
        Some(Rvalue::Use(Operand::Copy(path))) => Some(path),
        Some(Rvalue::Use(Operand::Move(path))) => Some(path),
        _ => None,
    }
}

impl BodyCalls {
    /// Every path that the calls name is one of the `n_paths` interned, and
    /// every point one of the `n_points` described.
    pub open spec fn wf(&self, n_paths: int, n_points: int) -> bool {
        &&& forall|i: int|
            0 <= i < self.call_sites@.len() ==> (#[trigger] self.call_sites@[i]).receiver < n_paths
                && self.call_sites@[i].point < n_points
        &&& forall|i: int|
            0 <= i < self.definitions@.len() ==> (#[trigger] self.definitions@[i]).point < n_points
                && match assigned_path(self.definitions@[i].assigned) {
                Some(path) => path < n_paths,
                None => true,
            }
    }

    /// Tests whether every path that the calls name is interned, and every
    /// point described.
    pub fn is_well_formed(&self, n_paths: usize, n_points: usize) -> (r: bool)
        ensures
            r == self.wf(n_paths as int, n_points as int),
    {
        let mut i: usize = 0;
        while i < self.call_sites.len()
            invariant
                i <= self.call_sites.len(),
                forall|k: int|
                    0 <= k < i ==> (#[trigger] self.call_sites@[k]).receiver < n_paths
                        && self.call_sites@[k].point < n_points,
            decreases self.call_sites.len() - i,
        {
            if self.call_sites[i].receiver >= n_paths || self.call_sites[i].point >= n_points {
                return false;
            }
            i += 1;
        }
        let mut j: usize = 0;
        while j < self.definitions.len()
            invariant
                j <= self.definitions.len(),
                forall|k: int|
                    0 <= k < j ==> (#[trigger] self.definitions@[k]).point < n_points && match assigned_path(
                        self.definitions@[k].assigned,
                    ) {
                        Some(path) => path < n_paths,
                        None => true,
                    },
            decreases self.definitions.len() - j,
        {
            let known = match self.definitions[j].assigned {
                Some(Rvalue::Ref(path)) => path < n_paths,
                Some(Rvalue::Use(Operand::Copy(path))) => path < n_paths,
                Some(Rvalue::Use(Operand::Move(path))) => path < n_paths,
                _ => true,
            };
            if !known || self.definitions[j].point >= n_points {
                return false;
            }
            j += 1;
        }
        true
    }
}

/// The candidates are call sites, so they name what the call sites name.
pub proof fn lemma_candidates_are_sites(sites: Seq<CallSite>, fn_span: Span)
    ensures
        forall|i: int|
            0 <= i < candidates(sites, fn_span).len() ==> sites.contains(
                #[trigger] candidates(sites, fn_span)[i],
            ) && candidates(sites, fn_span)[i].fn_span.spec_overlaps(fn_span),
        forall|k: int|
            0 <= k < sites.len() && (#[trigger] sites[k]).fn_span.spec_overlaps(fn_span) ==> candidates(
                sites,
                fn_span,
            ).contains(sites[k]),
    decreases sites.len(),
{
    if sites.len() > 0 {
        let front = sites.drop_last();
        lemma_candidates_are_sites(front, fn_span);
        let all = candidates(sites, fn_span);
        assert forall|i: int| 0 <= i < all.len() implies sites.contains(#[trigger] all[i])
            && all[i].fn_span.spec_overlaps(fn_span) by {
            if i < candidates(front, fn_span).len() {
                let site = candidates(front, fn_span)[i];
                assert(front.contains(site));
                let k = choose|k: int| 0 <= k < front.len() && front[k] == site;
                assert(sites[k] == site);
            } else {
                assert(sites[sites.len() - 1] == all[i]);
            }
        }
        assert forall|k: int|
            0 <= k < sites.len() && (#[trigger] sites[k]).fn_span.spec_overlaps(
                fn_span,
            ) implies all.contains(sites[k]) by {
            if k < front.len() {
                assert(front[k] == sites[k]);
                assert(candidates(front, fn_span).contains(front[k]));
                let m = choose|m: int|
                    0 <= m < candidates(front, fn_span).len() && candidates(front, fn_span)[m]
                        == front[k];
                assert(all[m] == sites[k]);
            } else {
                assert(all[all.len() - 1] == sites[k]);
            }
        }
    }
}

/// The chosen site is one of the sites. Where some site has no site running
/// strictly before it, the chosen site is the first such site.
pub proof fn lemma_first_unpreceded(predecessors: Seq<(Point, Point)>, sites: Seq<CallSite>, from: int)
    requires
        0 <= from,
        sites.len() > 0,
    ensures
        0 <= first_unpreceded(predecessors, sites, from) < sites.len(),
        forall|i: int|
            from <= i < sites.len() && unpreceded_by(predecessors, sites, i, sites.len() as int) ==> {
                let chosen = first_unpreceded(predecessors, sites, from);
                from <= chosen <= i && unpreceded_by(predecessors, sites, chosen, sites.len() as int)
            },
    decreases sites.len() - from,
{
    if from < sites.len() && !unpreceded_by(predecessors, sites, from, sites.len() as int) {
        lemma_first_unpreceded(predecessors, sites, from + 1);
    }
}

/// The call sites whose span overlaps the span of a method call.
fn overlapping_sites(sites: &Vec<CallSite>, fn_span: Span) -> (found: Vec<CallSite>)
    ensures
        found@ == candidates(sites@, fn_span),
{
    let mut found: Vec<CallSite> = Vec::new();
    let mut i: usize = 0;
    while i < sites.len()
        invariant
            i <= sites.len(),
            found@ == candidates(sites@.take(i as int), fn_span),
        decreases sites.len() - i,
    {
        proof {
            assert(sites@.take(i + 1).drop_last() == sites@.take(i as int));
        }
        if sites[i].fn_span.overlaps(fn_span) {
            found.push(sites[i]);
        }
        i += 1;
    }
    assert(sites@.take(i as int) == sites@);
    found
}

/// Whether no site runs strictly before the site `i`.
fn is_unpreceded(predecessors: &Vec<(Point, Point)>, sites: &Vec<CallSite>, i: usize) -> (r: bool)
    requires
        i < sites@.len(),
    ensures
        r == unpreceded_by(predecessors@, sites@, i as int, sites@.len() as int),
{
    let mut j: usize = 0;
    while j < sites.len()
        invariant
            j <= sites.len(),
            i < sites@.len(),
            unpreceded_by(predecessors@, sites@, i as int, j as int),
        decreases sites.len() - j,
    {
        let a = sites[j].point;
        let b = sites[i].point;
        if holds_pair(predecessors, a, b) && !holds_pair(predecessors, b, a) {
            assert(strictly_before(predecessors@, sites@[j as int].point, sites@[i as int].point));
            return false;
        }
        j += 1;
    }
    true
}

/// The site that stands for a method call.
fn choose_site(predecessors: &Vec<(Point, Point)>, sites: &Vec<CallSite>) -> (chosen: usize)
    requires
        sites@.len() > 0,
    ensures
        chosen == first_unpreceded(predecessors@, sites@, 0),
        chosen < sites@.len(),
{
    proof {
        lemma_first_unpreceded(predecessors@, sites@, 0);
    }
    let mut i: usize = 0;
    while i < sites.len()
        invariant
            i <= sites.len(),
            first_unpreceded(predecessors@, sites@, 0) == first_unpreceded(
                predecessors@,
                sites@,
                i as int,
            ),
        decreases sites.len() - i,
    {
        if is_unpreceded(predecessors, sites, i) {
            return i;
        }
        i += 1;
    }
    0
}

/// The first definition that assigns a local.
fn find_definition(definitions: &Vec<Definition>, local: Local) -> (found: Option<usize>)
    ensures
        match found {
            Some(d) => first_definition(definitions@, local, 0) == Some(d as int) && d
                < definitions@.len(),
            None => first_definition(definitions@, local, 0) is None,
        },
{
    let mut i: usize = 0;
    while i < definitions.len()
        invariant
            i <= definitions.len(),
            first_definition(definitions@, local, 0) == first_definition(
                definitions@,
                local,
                i as int,
            ),
        decreases definitions.len() - i,
    {
        if definitions[i].local == local && definitions[i].assigned.is_some() {
            return Some(i);
        }
        i += 1;
    }
    None
}

/// Whether no assignment of the local runs strictly after the definition
/// `i`.
fn is_unfollowed(
    predecessors: &Vec<(Point, Point)>,
    definitions: &Vec<Definition>,
    local: Local,
    i: usize,
) -> (r: bool)
    requires
        i < definitions@.len(),
    ensures
        r == unfollowed_by(predecessors@, definitions@, local, i as int, definitions@.len() as int),
{
    let mut j: usize = 0;
    while j < definitions.len()
        invariant
            j <= definitions.len(),
            i < definitions@.len(),
            unfollowed_by(predecessors@, definitions@, local, i as int, j as int),
        decreases definitions.len() - j,
    {
        if definitions[j].local == local && definitions[j].assigned.is_some() {
            let a = definitions[i].point;
            let b = definitions[j].point;
            if holds_pair(predecessors, a, b) && !holds_pair(predecessors, b, a) {
                assert(assigns(definitions@[j as int], local) && strictly_before(
                    predecessors@,
                    definitions@[i as int].point,
                    definitions@[j as int].point,
                ));
                return false;
            }
        }
        j += 1;
    }
    true
}

/// The most recent assignment of a local.
fn find_latest_definition(
    predecessors: &Vec<(Point, Point)>,
    definitions: &Vec<Definition>,
    local: Local,
) -> (found: Option<usize>)
    ensures
        match found {
            Some(d) => latest_definition(predecessors@, definitions@, local) == Some(d as int) && d
                < definitions@.len(),
            None => latest_definition(predecessors@, definitions@, local) is None,
        },
{
    let mut i: usize = 0;
    while i < definitions.len()
        invariant
            i <= definitions.len(),
            first_unfollowed(predecessors@, definitions@, local, 0) == first_unfollowed(
                predecessors@,
                definitions@,
                local,
                i as int,
            ),
        decreases definitions.len() - i,
    {
        if definitions[i].local == local && definitions[i].assigned.is_some() && is_unfollowed(
            predecessors,
            definitions,
            local,
            i,
        ) {
            return Some(i);
        }
        i += 1;
    }
    find_definition(definitions, local)
}

/// The path and the point that a receiver stands for, and whether the
/// receiver is a copy; for a receiver whose most recent assignment is not
/// supported, the point of that assignment.
fn resolve_receiver(
    predecessors: &Vec<(Point, Point)>,
    definitions: &Vec<Definition>,
    local: Local,
    site: CallSite,
) -> (r: Result<(Path, Point, bool), BoundaryError>)
    ensures
        match r {
            Ok(target) => resolved(predecessors@, definitions@, local, site) == Some(target),
            Err(BoundaryError::UnsupportedAssignment { point }) => resolved(
                predecessors@,
                definitions@,
                local,
                site,
            ) is None && unsupported_at(predecessors@, definitions@, local) == Some(point),
        },
{
    match find_latest_definition(predecessors, definitions, local) {
        None => Ok((site.receiver, site.point, false)),
        Some(d) => {
            let point = definitions[d].point;
            match definitions[d].assigned {
                Some(Rvalue::Ref(path)) => Ok((path, point, false)),
                Some(Rvalue::Use(Operand::Copy(path))) => Ok((path, point, true)),
                Some(Rvalue::Use(Operand::Move(path))) => Ok((path, point, false)),
                _ => Err(BoundaryError::UnsupportedAssignment { point }),
            }
        },
    }
}

/// The reason given for one capability is the right one: none where the
/// capability is there or not expected; the type where the path is
/// structurally without it; else the region of the loan that refines it;
/// none where nothing of these takes it away.
pub open spec fn explains<F: Fn(Span) -> Range>(
    ctxt: &PermissionsCtxt,
    span_to_range: F,
    missing: bool,
    structural: bool,
    refiner: Option<Loan>,
    reason: Option<MissingPermReason>,
) -> bool {
    if !missing {
        reason is None
    } else if structural {
        reason matches Some(MissingPermReason::InsufficientType)
    } else {
        match refiner {
            Some(loan) => reason matches Some(MissingPermReason::Refined(region)) && ctxt.region_of(
                span_to_range,
                loan,
                region,
            ),
            None => reason is None,
        }
    }
}

/// The reasons are the right ones for a path at a point, of which
/// `expected` is asked and which has `actual`.
pub open spec fn explains_all<F: Fn(Span) -> Range>(
    ctxt: &PermissionsCtxt,
    span_to_range: F,
    path: Path,
    point: Point,
    expected: Permissions,
    actual: Permissions,
    info: MissingPermsInfo,
) -> bool {
    let out = &ctxt.permissions_output;
    &&& explains(
        ctxt,
        span_to_range,
        expected.read && !actual.read,
        false,
        out.read_refiner(path, point),
        info.read,
    )
    &&& explains(
        ctxt,
        span_to_range,
        expected.write && !actual.write,
        out.never_write@.contains(path),
        out.write_refiner(path, point),
        info.write,
    )
    &&& explains(
        ctxt,
        span_to_range,
        expected.drop && !actual.drop,
        out.never_drop@.contains(path),
        out.drop_refiner(path, point),
        info.drop,
    )
}

/// The reason for which one capability is missing.
fn explain_one<F: Fn(Span) -> Range + Copy>(
    ctxt: &PermissionsCtxt,
    path: Path,
    point: Point,
    missing: bool,
    structural: bool,
    table: &HashMap<Point, HashMap<Path, Loan>>,
    span_to_range: F,
) -> (reason: Option<MissingPermReason>)
    requires
        ctxt.facts.wf(),
        forall|s: Span| span_to_range.requires((s,)),
        crate::output::refiner_in(table@, path, point) matches Some(loan) ==> loan
            < ctxt.facts.loans@.len(),
    ensures
        explains(
            ctxt,
            span_to_range,
            missing,
            structural,
            crate::output::refiner_in(table@, path, point),
            reason,
        ),
{
    if !missing {
        None
    } else if structural {
        Some(MissingPermReason::InsufficientType)
    } else {
        match table.get(&point) {
            Some(refined_by) => match find_loan_refinement(ctxt, path, refined_by, span_to_range) {
                Some(region) => Some(MissingPermReason::Refined(region)),
                None => None,
            },
            None => None,
        }
    }
}

/// The reasons for which the capabilities that are expected of a path at a
/// point, and that it does not have, are missing.
pub fn build_missing_perms_explainers<F: Fn(Span) -> Range + Copy>(
    ctxt: &PermissionsCtxt,
    path: Path,
    point: Point,
    expected: Permissions,
    actual: Permissions,
    span_to_range: F,
) -> (info: MissingPermsInfo)
    requires
        ctxt.wf(),
        forall|s: Span| span_to_range.requires((s,)),
    ensures
        explains_all(ctxt, span_to_range, path, point, expected, actual, info),
{
    proof {
        lemma_refiners_known(ctxt, path, point);
    }
    let out = &ctxt.permissions_output;
    let read = explain_one(
        ctxt,
        path,
        point,
        expected.read && !actual.read,
        false,
        &out.cannot_read,
        span_to_range,
    );
    let write = explain_one(
        ctxt,
        path,
        point,
        expected.write && !actual.write,
        out.never_write.contains(&path),
        &out.cannot_write,
        span_to_range,
    );
    let drop = explain_one(
        ctxt,
        path,
        point,
        expected.drop && !actual.drop,
        out.never_drop.contains(&path),
        &out.cannot_drop,
        span_to_range,
    );
    MissingPermsInfo { read, write, drop }
}

impl PermissionsCtxt {
    /// The path and the point at which a method call is judged, and whether
    /// its receiver is a copy. Nothing for a call that no call site
    /// overlaps, and for one whose receiver is assigned in a way that is
    /// not supported.
    pub open spec fn call_target(&self, calls: &BodyCalls, call: MethodCall) -> Option<
        (Path, Point, bool),
    > {
        let sites = candidates(calls.call_sites@, call.fn_span);
        if sites.len() == 0 {
            None
        } else {
            let site = sites[first_unpreceded(calls.predecessors@, sites, 0)];
            resolved(
                calls.predecessors@,
                calls.definitions@,
                self.places@[site.receiver as int].place.local,
                site,
            )
        }
    }

    /// The boundary is the one of a method call that has one.
    pub open spec fn judges<F: Fn(Span) -> Range>(
        &self,
        calls: &BodyCalls,
        span_to_range: F,
        call: MethodCall,
        boundary: PermissionsBoundary,
    ) -> bool {
        match self.call_target(calls, call) {
            Some(target) => self.boundary_of(span_to_range, call, target, boundary),
            None => false,
        }
    }

    /// The boundary is the one of a method call that is judged at `target`:
    /// it expects what the method's first parameter asks, has what the path
    /// holds at the point, and the drop capability besides where the
    /// receiver is a copy, lies one character before the method's name, and
    /// explains what is missing.
    pub open spec fn boundary_of<F: Fn(Span) -> Range>(
        &self,
        span_to_range: F,
        call: MethodCall,
        target: (Path, Point, bool),
        boundary: PermissionsBoundary,
    ) -> bool {
        let held = self.data_at(target.0, target.1).permissions;
        &&& boundary.expected == expected_permissions(call.receiver_type)
        &&& boundary.actual == (Permissions {
            read: held.read,
            write: held.write,
            drop: held.drop || target.2,
        })
        &&& boundary.was_copied == target.2
        &&& exists|range: Range|
            span_to_range.ensures((call.fn_span,), range) && boundary.location + 1
                == #[trigger] range.char_start
        &&& explains_all(
            self,
            span_to_range,
            target.0,
            target.1,
            boundary.expected,
            boundary.actual,
            boundary.explanations,
        )
    }
}

/// `span_to_range` puts a method's name behind the first character.
pub open spec fn names_follow<F: Fn(Span) -> Range>(span_to_range: F, call: MethodCall) -> bool {
    forall|range: Range| #[trigger]
        span_to_range.ensures((call.fn_span,), range) ==> range.char_start >= 1
}

impl PermissionsCtxt {
    /// The point at which the receiver of a method call is assigned in a
    /// way that is not supported; none for a call without a call site and
    /// for one that has a boundary.
    pub open spec fn call_unsupported(&self, calls: &BodyCalls, call: MethodCall) -> Option<Point> {
        let sites = candidates(calls.call_sites@, call.fn_span);
        if sites.len() == 0 {
            None
        } else {
            let site = sites[first_unpreceded(calls.predecessors@, sites, 0)];
            unsupported_at(
                calls.predecessors@,
                calls.definitions@,
                self.places@[site.receiver as int].place.local,
            )
        }
    }
}

/// The boundary of one method call. A call that no call site overlaps has
/// none; a call whose receiver is assigned in a way that is not supported
/// is an error, which says where.
pub fn boundary_for_call<F: Fn(Span) -> Range + Copy>(
    ctxt: &PermissionsCtxt,
    calls: &BodyCalls,
    call: MethodCall,
    span_to_range: F,
) -> (found: Result<Option<PermissionsBoundary>, BoundaryError>)
    requires
        ctxt.wf(),
        calls.wf(ctxt.places@.len() as int, ctxt.facts.points@.len() as int),
        forall|s: Span| span_to_range.requires((s,)),
        names_follow(span_to_range, call),
    ensures
        match found {
            Ok(Some(boundary)) => ctxt.judges(calls, span_to_range, call, boundary),
            Ok(None) => candidates(calls.call_sites@, call.fn_span).len() == 0,
            Err(BoundaryError::UnsupportedAssignment { point }) => candidates(
                calls.call_sites@,
                call.fn_span,
            ).len() > 0 && ctxt.call_target(calls, call) is None && ctxt.call_unsupported(calls, call)
                == Some(point),
        },
{
    let sites = overlapping_sites(&calls.call_sites, call.fn_span);
    if sites.len() == 0 {
        return Ok(None);
    }
    let site = sites[choose_site(&calls.predecessors, &sites)];
    proof {
        lemma_candidates_are_sites(calls.call_sites@, call.fn_span);
        assert(calls.call_sites@.contains(site));
    }
    let local = ctxt.places.path_to_place(site.receiver).local;
    proof {
        lemma_latest_definition(calls.predecessors@, calls.definitions@, local);
    }
    match resolve_receiver(&calls.predecessors, &calls.definitions, local, site) {
        Err(unsupported) => Err(unsupported),
        Ok((path, point, was_copied)) => {
            proof {
                match latest_definition(calls.predecessors@, calls.definitions@, local) {
                    Some(d) => {
                        assert(assigned_path(calls.definitions@[d].assigned) == Some(path));
                        assert(calls.definitions@[d].point == point);
                    },
                    None => {},
                }
            }
            let held = ctxt.permissions_at_point(path, point);
            let actual = Permissions {
                read: held.read,
                write: held.write,
                drop: held.drop || was_copied,
            };
            let expected = Permissions::from(call.receiver_type);
            let explanations = build_missing_perms_explainers(
                ctxt,
                path,
                point,
                expected,
                actual,
                span_to_range,
            );
            let range = span_to_range(call.fn_span);
            let location = range.char_start - 1;
            Ok(Some(PermissionsBoundary { location, expected, actual, was_copied, explanations }))
        },
    }
}

/// A definition that is found assigns the local, and none before it does,
/// from `from` on.
pub proof fn lemma_first_definition(definitions: Seq<Definition>, local: Local, from: int)
    requires
        0 <= from,
    ensures
        match first_definition(definitions, local, from) {
            Some(d) => from <= d < definitions.len() && assigns(definitions[d], local),
            None => forall|i: int|
                from <= i < definitions.len() ==> !assigns(#[trigger] definitions[i], local),
        },
    decreases definitions.len() - from,
{
    if from < definitions.len() && !assigns(definitions[from], local) {
        lemma_first_definition(definitions, local, from + 1);
    }
}

/// An assignment that is found from `from` on has no assignment of the
/// local running strictly after it, and is the first such; where none is
/// found, every assignment has one running strictly after it.
pub proof fn lemma_first_unfollowed(
    predecessors: Seq<(Point, Point)>,
    definitions: Seq<Definition>,
    local: Local,
    from: int,
)
    requires
        0 <= from,
    ensures
        match first_unfollowed(predecessors, definitions, local, from) {
            Some(d) => from <= d < definitions.len() && assigns(definitions[d], local)
                && unfollowed_by(predecessors, definitions, local, d, definitions.len() as int)
                && forall|i: int|
                from <= i < d && assigns(#[trigger] definitions[i], local) ==> !unfollowed_by(
                    predecessors,
                    definitions,
                    local,
                    i,
                    definitions.len() as int,
                ),
            None => forall|i: int|
                from <= i < definitions.len() && assigns(#[trigger] definitions[i], local)
                    ==> !unfollowed_by(predecessors, definitions, local, i, definitions.len() as int),
        },
    decreases definitions.len() - from,
{
    if from < definitions.len() && !(assigns(definitions[from], local) && unfollowed_by(
        predecessors,
        definitions,
        local,
        from,
        definitions.len() as int,
    )) {
        lemma_first_unfollowed(predecessors, definitions, local, from + 1);
    }
}

/// The most recent assignment of a local is an assignment of the local.
/// Where some assignment of the local has none running strictly after it,
/// the most recent assignment is the first listed of these. A local has no
/// most recent assignment only where nothing assigns it.
pub proof fn lemma_latest_definition(
    predecessors: Seq<(Point, Point)>,
    definitions: Seq<Definition>,
    local: Local,
)
    ensures
        match latest_definition(predecessors, definitions, local) {
            Some(d) => {
                &&& 0 <= d < definitions.len()
                &&& assigns(definitions[d], local)
                &&& forall|i: int|
                    0 <= i < definitions.len() && assigns(#[trigger] definitions[i], local)
                        && unfollowed_by(predecessors, definitions, local, i, definitions.len() as int)
                        ==> d <= i && unfollowed_by(
                        predecessors,
                        definitions,
                        local,
                        d,
                        definitions.len() as int,
                    )
            },
            None => forall|i: int|
                0 <= i < definitions.len() ==> !assigns(#[trigger] definitions[i], local),
        },
{
    lemma_first_unfollowed(predecessors, definitions, local, 0);
    lemma_first_definition(definitions, local, 0);
}

/// The method calls that have a boundary, in their order.
pub open spec fn reported(ctxt: &PermissionsCtxt, calls: &BodyCalls, method_calls: Seq<MethodCall>) -> Seq<
    MethodCall,
>
    decreases method_calls.len(),
{
    if method_calls.len() == 0 {
        Seq::empty()
    } else {
        let front = reported(ctxt, calls, method_calls.drop_last());
        if ctxt.call_target(calls, method_calls.last()) is Some {
            front.push(method_calls.last())
        } else {
            front
        }
    }
}

/// The boundaries are the ones of the method calls that have one, in the
/// order of the calls.
pub open spec fn boundaries_of<F: Fn(Span) -> Range>(
    ctxt: &PermissionsCtxt,
    calls: &BodyCalls,
    span_to_range: F,
    method_calls: Seq<MethodCall>,
    boundaries: Seq<PermissionsBoundary>,
) -> bool {
    let judged = reported(ctxt, calls, method_calls);
    &&& boundaries.len() == judged.len()
    &&& forall|k: int|
        0 <= k < judged.len() ==> ctxt.judges(calls, span_to_range, judged[k], #[trigger] boundaries[k])
}

/// Pairs the capabilities that the method calls of a function body expect
/// of their receivers with the ones that the receivers have: one boundary
/// for each call that a call site overlaps and whose receiver can be traced,
/// in the order of the calls.
pub fn pair_permissions_to_calls<F: Fn(Span) -> Range + Copy>(
    ctxt: &PermissionsCtxt,
    calls: &BodyCalls,
    method_calls: &Vec<MethodCall>,
    span_to_range: F,
) -> (boundaries: Vec<PermissionsBoundary>)
    requires
        ctxt.wf(),
        calls.wf(ctxt.places@.len() as int, ctxt.facts.points@.len() as int),
        forall|s: Span| span_to_range.requires((s,)),
        forall|i: int|
            0 <= i < method_calls@.len() ==> names_follow(span_to_range, #[trigger] method_calls@[i]),
    ensures
        boundaries_of(ctxt, calls, span_to_range, method_calls@, boundaries@),
{
    let mut boundaries: Vec<PermissionsBoundary> = Vec::new();
    let mut i: usize = 0;
    while i < method_calls.len()
        invariant
            i <= method_calls.len(),
            ctxt.wf(),
            calls.wf(ctxt.places@.len() as int, ctxt.facts.points@.len() as int),
            forall|s: Span| span_to_range.requires((s,)),
            forall|k: int|
                0 <= k < method_calls@.len() ==> names_follow(
                    span_to_range,
                    #[trigger] method_calls@[k],
                ),
            boundaries_of(ctxt, calls, span_to_range, method_calls@.take(i as int), boundaries@),
        decreases method_calls.len() - i,
    {
        let ghost taken = method_calls@.take(i as int);
        let ghost next = method_calls@.take(i + 1);
        let ghost before = boundaries@;
        proof {
            assert(next.drop_last() == taken);
            assert(next.last() == method_calls@[i as int]);
        }
        match boundary_for_call(ctxt, calls, method_calls[i], span_to_range) {
            Ok(Some(found)) => {
                let ghost boundary = found;
                boundaries.push(found);
                proof {
                    let prior = reported(ctxt, calls, taken);
                    let judged = reported(ctxt, calls, next);
                    assert(judged == prior.push(next.last()));
                    assert forall|k: int| 0 <= k < judged.len() implies ctxt.judges(
                        calls,
                        span_to_range,
                        judged[k],
                        #[trigger] boundaries@[k],
                    ) by {
                        if k < prior.len() {
                            assert(boundaries@[k] == before[k]);
                        } else {
                            assert(boundaries@[k] == boundary);
                        }
                    }
                }
            },
            _ => {},
        }
        i += 1;
    }
    assert(method_calls@.take(i as int) == method_calls@);
    boundaries
}

/// Where every method call has a call site that overlaps it and a receiver
/// that can be traced, every call is reported.
pub proof fn lemma_all_reported(ctxt: &PermissionsCtxt, calls: &BodyCalls, method_calls: Seq<MethodCall>)
    requires
        forall|i: int|
            0 <= i < method_calls.len() ==> ctxt.call_target(calls, #[trigger] method_calls[i]) is Some,
    ensures
        reported(ctxt, calls, method_calls) == method_calls,
    decreases method_calls.len(),
{
    if method_calls.len() > 0 {
        let front = method_calls.drop_last();
        assert forall|i: int| 0 <= i < front.len() implies ctxt.call_target(
            calls,
            #[trigger] front[i],
        ) is Some by {
            assert(front[i] == method_calls[i]);
        }
        lemma_all_reported(ctxt, calls, front);
        assert(ctxt.call_target(calls, method_calls[method_calls.len() - 1]) is Some);
        assert(front.push(method_calls.last()) =~= method_calls);
    } else {
        assert(reported(ctxt, calls, method_calls) =~= method_calls);
    }
}

/// Boundaries are total: where every method call has a call site that
/// overlaps it and a receiver that can be traced, each call has exactly one
/// boundary, at the call's own position in the list.
pub proof fn lemma_boundary_totality<F: Fn(Span) -> Range>(
    ctxt: &PermissionsCtxt,
    calls: &BodyCalls,
    span_to_range: F,
    method_calls: Seq<MethodCall>,
    boundaries: Seq<PermissionsBoundary>,
)
    requires
        boundaries_of(ctxt, calls, span_to_range, method_calls, boundaries),
        forall|i: int|
            0 <= i < method_calls.len() ==> candidates(
                calls.call_sites@,
                (#[trigger] method_calls[i]).fn_span,
            ).len() > 0 && ctxt.call_target(calls, method_calls[i]) is Some,
    ensures
        boundaries.len() == method_calls.len(),
        forall|i: int|
            0 <= i < method_calls.len() ==> ctxt.judges(
                calls,
                span_to_range,
                method_calls[i],
                #[trigger] boundaries[i],
            ),
{
    lemma_all_reported(ctxt, calls, method_calls);
}

} // verus!
