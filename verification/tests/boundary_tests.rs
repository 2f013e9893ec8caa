use aquascope::boundary::{
    boundary_for_call, build_missing_perms_explainers, pair_permissions_to_calls, BodyCalls,
    BoundaryError, CallSite, Definition, MethodCall, MissingPermReason, MissingPermsInfo, Operand,
    PermissionsBoundary, Rvalue,
};
use aquascope::context::PermissionsCtxt;
use aquascope::facts::{InputFacts, LoanData, PointData};
use aquascope::output::compute;
use aquascope::permissions::{Mutability, Permissions};
use aquascope::place::{PathTable, Place, PlaceData, PlaceElem, Pointer};
use aquascope::regions::{
    find_loan_refinement, loan_refinement, loan_to_spans, points_to_spans, RefinementRegion, Refiner,
};
use aquascope::span::{Range, Span};
use std::collections::HashMap;

fn sp(lo: u32, hi: u32) -> Span {
    Span { lo, hi }
}

fn range(lo: usize, hi: usize) -> Range {
    Range { char_start: lo + 100, char_end: hi + 100, byte_start: lo, byte_end: hi, filename: 7 }
}

fn to_range(span: Span) -> Range {
    range(span.lo as usize, span.hi as usize)
}

fn data(local: usize, projection: Vec<PlaceElem>, declared_readonly: bool, copyable: bool) -> PlaceData {
    PlaceData {
        place: Place { local, projection },
        declared_readonly,
        copyable,
        source_visible: true,
        name: None,
    }
}

/// Paths: 0 = `v` (read-only binding), 1 = a temporary, 2 = `x` (mutable
/// binding), 3 = `c` (read-only, copied), 4 = `*c` behind a shared
/// reference.
fn table() -> PathTable {
    let mut table = PathTable::new();
    table.new_path(data(0, vec![], true, false));
    table.new_path(data(1, vec![], false, false));
    table.new_path(data(2, vec![], false, false));
    table.new_path(data(3, vec![], true, true));
    table.new_path(data(3, vec![PlaceElem::Deref(Pointer::SharedRef)], false, false));
    table
}

fn point(span: Span, enclosing: Vec<Span>) -> PointData {
    PointData { span, enclosing }
}

/// Loan 0 borrows `x` exclusively and is live at points 1 to 3.
fn facts() -> InputFacts {
    InputFacts {
        loans: vec![LoanData { borrowed: 2, mutable: true, reserve_span: sp(10, 16), region: (1, 3) }],
        points: vec![
            point(sp(0, 5), vec![sp(0, 9)]),
            point(sp(12, 18), vec![sp(10, 30), sp(12, 20), sp(0, 50), sp(11, 19), sp(13, 17)]),
            point(sp(21, 24), vec![sp(20, 25)]),
            point(sp(40, 45), vec![sp(40, 45), sp(39, 46)]),
            point(sp(60, 61), vec![]),
            point(sp(5, 5), vec![sp(5, 5)]),
        ],
        loan_issued_at: vec![(0, 1)],
        loan_live_at: vec![(1, vec![0]), (2, vec![0]), (3, vec![0])],
        cfg_edge: vec![(0, 1), (1, 2), (2, 3), (3, 4)],
        path_maybe_uninitialized_on_exit: vec![],
        path_live_at: (0..6).map(|p| (p, vec![0, 1, 2, 3, 4])).collect(),
        loan_conflicts: vec![(0, 2)],
    }
}

fn ctxt() -> PermissionsCtxt {
    compute(table(), facts())
}

fn none() -> MissingPermsInfo {
    MissingPermsInfo { read: None, write: None, drop: None }
}

fn region_of_loan_0() -> RefinementRegion {
    RefinementRegion {
        refiner_point: Refiner::Loan(range(10, 16)),
        refined_ranges: vec![range(10, 25), range(40, 45)],
        start: range(10, 16),
        end: range(40, 45),
    }
}

#[test]
fn a_point_is_shown_by_its_tightest_enclosing_span() {
    let ctxt = ctxt();
    assert_eq!(points_to_spans(&ctxt, &vec![1]), vec![sp(12, 20)]);
    assert_eq!(points_to_spans(&ctxt, &vec![3, 2, 1]), vec![sp(40, 45), sp(20, 25), sp(12, 20)]);
}

#[test]
fn a_point_without_a_span_around_it_adds_nothing() {
    let ctxt = ctxt();
    assert_eq!(points_to_spans(&ctxt, &vec![4]), vec![]);
    assert_eq!(points_to_spans(&ctxt, &vec![4, 0, 4]), vec![sp(0, 9)]);
    assert_eq!(points_to_spans(&ctxt, &vec![]), vec![]);
}

#[test]
fn an_empty_span_is_not_shown() {
    let ctxt = ctxt();
    assert_eq!(points_to_spans(&ctxt, &vec![5]), vec![]);
}

#[test]
fn the_spans_of_a_loan_are_clipped_and_smoothed() {
    let ctxt = ctxt();
    assert_eq!(
        loan_to_spans(&ctxt, 0, sp(12, 14), sp(40, 45)),
        vec![sp(12, 25), sp(40, 45)]
    );
    assert_eq!(loan_to_spans(&ctxt, 0, sp(20, 21), sp(24, 25)), vec![sp(20, 25)]);
    assert_eq!(loan_to_spans(&ctxt, 0, sp(13, 14), sp(15, 19)), vec![sp(13, 14), sp(15, 19)]);
    assert_eq!(loan_to_spans(&ctxt, 9, sp(1, 2), sp(6, 7)), vec![sp(1, 2), sp(6, 7)]);
}

#[test]
fn the_window_can_leave_its_own_bounds_out() {
    let ctxt = ctxt();
    assert_eq!(loan_to_spans(&ctxt, 9, sp(5, 9), sp(1, 7)), vec![]);
}

#[test]
fn the_region_of_a_loan_begins_where_the_borrow_is_taken_if_that_is_earlier() {
    let ctxt = ctxt();
    assert_eq!(loan_refinement(&ctxt, 0, to_range), region_of_loan_0());
}

#[test]
fn the_region_of_a_loan_begins_at_its_first_point_otherwise() {
    let mut facts = facts();
    facts.loans[0].reserve_span = sp(14, 16);
    let ctxt = compute(table(), facts);
    assert_eq!(
        loan_refinement(&ctxt, 0, to_range),
        RefinementRegion {
            refiner_point: Refiner::Loan(range(14, 16)),
            refined_ranges: vec![range(12, 25), range(40, 45)],
            start: range(12, 18),
            end: range(40, 45),
        }
    );
}

#[test]
fn a_refinement_is_found_for_the_path_that_the_table_names() {
    let ctxt = ctxt();
    let mut refined_by = HashMap::new();
    refined_by.insert(2, 0);
    assert_eq!(find_loan_refinement(&ctxt, 2, &refined_by, to_range), Some(region_of_loan_0()));
    assert_eq!(find_loan_refinement(&ctxt, 0, &refined_by, to_range), None);
    assert_eq!(find_loan_refinement(&ctxt, 2, &HashMap::new(), to_range), None);
}

#[test]
fn only_what_is_expected_and_missing_is_explained() {
    let ctxt = ctxt();
    let all = Permissions { read: true, write: true, drop: true };
    let nothing = Permissions::bottom();
    assert_eq!(build_missing_perms_explainers(&ctxt, 2, 2, all, all, to_range), none());
    assert_eq!(build_missing_perms_explainers(&ctxt, 2, 2, nothing, nothing, to_range), none());
    assert_eq!(
        build_missing_perms_explainers(&ctxt, 2, 2, all, nothing, to_range),
        MissingPermsInfo {
            read: Some(MissingPermReason::Refined(region_of_loan_0())),
            write: Some(MissingPermReason::Refined(region_of_loan_0())),
            drop: Some(MissingPermReason::Refined(region_of_loan_0())),
        }
    );
    let write_only = Permissions { read: false, write: true, drop: false };
    assert_eq!(
        build_missing_perms_explainers(&ctxt, 2, 2, write_only, nothing, to_range),
        MissingPermsInfo {
            read: None,
            write: Some(MissingPermReason::Refined(region_of_loan_0())),
            drop: None,
        }
    );
}

#[test]
fn a_structural_denial_is_explained_by_the_type() {
    let ctxt = ctxt();
    let all = Permissions { read: true, write: true, drop: true };
    let nothing = Permissions::bottom();
    assert_eq!(
        build_missing_perms_explainers(&ctxt, 4, 2, all, nothing, to_range),
        MissingPermsInfo {
            read: None,
            write: Some(MissingPermReason::InsufficientType),
            drop: Some(MissingPermReason::InsufficientType),
        }
    );
    assert_eq!(
        build_missing_perms_explainers(&ctxt, 0, 0, all, nothing, to_range),
        MissingPermsInfo { read: None, write: Some(MissingPermReason::InsufficientType), drop: None }
    );
}

fn push_on_read_only_binding() -> (BodyCalls, MethodCall) {
    let calls = BodyCalls {
        call_sites: vec![CallSite { point: 3, fn_span: sp(18, 27), receiver: 1 }],
        definitions: vec![
            Definition { local: 1, point: 0, assigned: None },
            Definition { local: 2, point: 1, assigned: Some(Rvalue::Other) },
            Definition { local: 1, point: 2, assigned: Some(Rvalue::Ref(0)) },
            Definition { local: 1, point: 4, assigned: Some(Rvalue::Ref(2)) },
        ],
        predecessors: vec![],
    };
    let call = MethodCall { fn_span: sp(20, 27), receiver_type: Some(Mutability::Mut) };
    (calls, call)
}

#[test]
fn a_read_only_receiver_lacks_the_write_that_is_expected() {
    let ctxt = ctxt();
    let (calls, call) = push_on_read_only_binding();
    assert!(calls.is_well_formed(5, 6));
    let boundary = boundary_for_call(&ctxt, &calls, call, to_range).unwrap().unwrap();
    assert_eq!(
        boundary,
        PermissionsBoundary {
            location: 119,
            expected: Permissions { read: true, write: true, drop: false },
            actual: Permissions { read: true, write: false, drop: true },
            was_copied: false,
            explanations: MissingPermsInfo {
                read: None,
                write: Some(MissingPermReason::InsufficientType),
                drop: None,
            },
        }
    );
}

#[test]
fn a_borrowed_receiver_is_explained_by_the_loan() {
    let ctxt = ctxt();
    let calls = BodyCalls {
        call_sites: vec![CallSite { point: 3, fn_span: sp(21, 27), receiver: 1 }],
        definitions: vec![Definition { local: 1, point: 2, assigned: Some(Rvalue::Ref(2)) }],
        predecessors: vec![],
    };
    let call = MethodCall { fn_span: sp(22, 27), receiver_type: Some(Mutability::Not) };
    assert_eq!(
        boundary_for_call(&ctxt, &calls, call, to_range),
        Ok(Some(PermissionsBoundary {
            location: 121,
            expected: Permissions { read: true, write: false, drop: false },
            actual: Permissions::bottom(),
            was_copied: false,
            explanations: MissingPermsInfo {
                read: Some(MissingPermReason::Refined(region_of_loan_0())),
                write: None,
                drop: None,
            },
        }))
    );
}

#[test]
fn a_copied_receiver_may_be_dropped() {
    let ctxt = ctxt();
    let calls = BodyCalls {
        call_sites: vec![CallSite { point: 3, fn_span: sp(21, 27), receiver: 1 }],
        definitions: vec![Definition {
            local: 1,
            point: 2,
            assigned: Some(Rvalue::Use(Operand::Copy(4))),
        }],
        predecessors: vec![],
    };
    let call = MethodCall { fn_span: sp(22, 27), receiver_type: None };
    assert_eq!(
        boundary_for_call(&ctxt, &calls, call, to_range),
        Ok(Some(PermissionsBoundary {
            location: 121,
            expected: Permissions { read: true, write: false, drop: true },
            actual: Permissions { read: true, write: false, drop: true },
            was_copied: true,
            explanations: none(),
        }))
    );
}

#[test]
fn a_moved_receiver_is_judged_where_it_is_assigned() {
    let ctxt = ctxt();
    let calls = BodyCalls {
        call_sites: vec![CallSite { point: 4, fn_span: sp(21, 27), receiver: 1 }],
        definitions: vec![Definition {
            local: 1,
            point: 2,
            assigned: Some(Rvalue::Use(Operand::Move(2))),
        }],
        predecessors: vec![],
    };
    let call = MethodCall { fn_span: sp(22, 27), receiver_type: None };
    let boundary = boundary_for_call(&ctxt, &calls, call, to_range).unwrap().unwrap();
    assert_eq!(boundary.actual, Permissions::bottom());
    assert!(!boundary.was_copied);
    assert_eq!(
        boundary.explanations,
        MissingPermsInfo {
            read: Some(MissingPermReason::Refined(region_of_loan_0())),
            write: None,
            drop: Some(MissingPermReason::Refined(region_of_loan_0())),
        }
    );
}

#[test]
fn a_receiver_that_is_not_assigned_is_judged_at_the_call() {
    let ctxt = ctxt();
    let calls = BodyCalls {
        call_sites: vec![CallSite { point: 4, fn_span: sp(21, 27), receiver: 2 }],
        definitions: vec![
            Definition { local: 2, point: 2, assigned: None },
            Definition { local: 1, point: 2, assigned: Some(Rvalue::Ref(0)) },
        ],
        predecessors: vec![],
    };
    let call = MethodCall { fn_span: sp(22, 27), receiver_type: Some(Mutability::Mut) };
    assert_eq!(
        boundary_for_call(&ctxt, &calls, call, to_range),
        Ok(Some(PermissionsBoundary {
            location: 121,
            expected: Permissions { read: true, write: true, drop: false },
            actual: Permissions { read: true, write: true, drop: true },
            was_copied: false,
            explanations: none(),
        }))
    );
}

#[test]
fn a_call_that_no_call_site_overlaps_has_no_boundary() {
    let ctxt = ctxt();
    let (calls, _) = push_on_read_only_binding();
    let elsewhere = MethodCall { fn_span: sp(27, 30), receiver_type: None };
    assert_eq!(boundary_for_call(&ctxt, &calls, elsewhere, to_range), Ok(None));
}

#[test]
fn an_assignment_that_is_not_supported_is_an_error() {
    let ctxt = ctxt();
    for assigned in [Rvalue::Other, Rvalue::Use(Operand::Constant)] {
        let calls = BodyCalls {
            call_sites: vec![CallSite { point: 3, fn_span: sp(21, 27), receiver: 1 }],
            definitions: vec![
                Definition { local: 1, point: 0, assigned: None },
                Definition { local: 1, point: 2, assigned: Some(assigned) },
                Definition { local: 1, point: 4, assigned: Some(Rvalue::Ref(0)) },
            ],
            predecessors: vec![],
        };
        let call = MethodCall { fn_span: sp(22, 27), receiver_type: None };
        assert_eq!(
            boundary_for_call(&ctxt, &calls, call, to_range),
            Err(BoundaryError::UnsupportedAssignment { point: 2 })
        );
        assert_eq!(pair_permissions_to_calls(&ctxt, &calls, &vec![call, call], to_range), vec![]);
    }
}

fn two_sites(predecessors: Vec<(usize, usize)>) -> BodyCalls {
    BodyCalls {
        call_sites: vec![
            CallSite { point: 4, fn_span: sp(21, 27), receiver: 0 },
            CallSite { point: 2, fn_span: sp(20, 30), receiver: 2 },
            CallSite { point: 0, fn_span: sp(50, 60), receiver: 3 },
        ],
        definitions: vec![],
        predecessors,
    }
}

#[test]
fn the_call_site_that_runs_first_stands_for_the_call() {
    let ctxt = ctxt();
    let call = MethodCall { fn_span: sp(22, 27), receiver_type: Some(Mutability::Mut) };
    let first = boundary_for_call(&ctxt, &two_sites(vec![(2, 4), (0, 2), (0, 4)]), call, to_range)
        .unwrap()
        .unwrap();
    assert_eq!(first.actual, Permissions::bottom());
    let given = boundary_for_call(&ctxt, &two_sites(vec![(4, 2)]), call, to_range).unwrap().unwrap();
    assert_eq!(given.actual, Permissions { read: true, write: false, drop: true });
}

#[test]
fn call_sites_without_an_order_are_taken_as_given() {
    let ctxt = ctxt();
    let call = MethodCall { fn_span: sp(22, 27), receiver_type: Some(Mutability::Mut) };
    for predecessors in [vec![], vec![(2, 4), (4, 2)], vec![(0, 4)]] {
        let boundary =
            boundary_for_call(&ctxt, &two_sites(predecessors), call, to_range).unwrap().unwrap();
        assert_eq!(boundary.actual, Permissions { read: true, write: false, drop: true });
    }
}

#[test]
fn every_call_with_a_traceable_receiver_has_one_boundary() {
    let ctxt = ctxt();
    let (calls, call) = push_on_read_only_binding();
    let method_calls = vec![
        call,
        MethodCall { fn_span: sp(26, 29), receiver_type: None },
        MethodCall { fn_span: sp(19, 21), receiver_type: Some(Mutability::Not) },
    ];
    let boundaries = pair_permissions_to_calls(&ctxt, &calls, &method_calls, to_range);
    assert_eq!(boundaries.len(), 3);
    for (boundary, call) in boundaries.iter().zip(method_calls.iter()) {
        assert_eq!(boundary.expected, Permissions::from(call.receiver_type));
        assert_eq!(boundary.location, call.fn_span.lo as usize + 99);
        assert_eq!(boundary.actual, Permissions { read: true, write: false, drop: true });
    }
}

#[test]
fn calls_without_a_boundary_are_passed_over() {
    let ctxt = ctxt();
    let (calls, call) = push_on_read_only_binding();
    let method_calls = vec![
        MethodCall { fn_span: sp(0, 4), receiver_type: None },
        call,
        MethodCall { fn_span: sp(90, 94), receiver_type: None },
        MethodCall { fn_span: sp(24, 25), receiver_type: None },
    ];
    let boundaries = pair_permissions_to_calls(&ctxt, &calls, &method_calls, to_range);
    assert_eq!(boundaries.len(), 2);
    assert_eq!(boundaries[0].location, 119);
    assert_eq!(boundaries[1].location, 123);
    assert_eq!(pair_permissions_to_calls(&ctxt, &calls, &vec![], to_range), vec![]);
}

#[test]
fn calls_that_name_unknown_paths_or_points_are_not_well_formed() {
    let (calls, _) = push_on_read_only_binding();
    assert!(calls.is_well_formed(3, 5));
    assert!(!calls.is_well_formed(2, 5));
    assert!(!calls.is_well_formed(3, 4));
    assert!(!two_sites(vec![]).is_well_formed(3, 5));
    assert!(two_sites(vec![]).is_well_formed(4, 5));
    assert!(!two_sites(vec![]).is_well_formed(4, 4));
}

fn assigned_twice(predecessors: Vec<(usize, usize)>) -> BodyCalls {
    BodyCalls {
        call_sites: vec![CallSite { point: 4, fn_span: sp(21, 27), receiver: 1 }],
        definitions: vec![
            Definition { local: 1, point: 1, assigned: Some(Rvalue::Ref(0)) },
            Definition { local: 2, point: 3, assigned: Some(Rvalue::Ref(4)) },
            Definition { local: 1, point: 2, assigned: Some(Rvalue::Ref(2)) },
            Definition { local: 1, point: 3, assigned: None },
        ],
        predecessors,
    }
}

#[test]
fn the_most_recent_assignment_stands_for_the_receiver() {
    let ctxt = ctxt();
    let call = MethodCall { fn_span: sp(22, 27), receiver_type: Some(Mutability::Mut) };
    let newer =
        boundary_for_call(&ctxt, &assigned_twice(vec![(1, 2), (2, 3), (1, 3)]), call, to_range)
            .unwrap()
            .unwrap();
    assert_eq!(newer.actual, Permissions::bottom());
    assert_eq!(
        newer.explanations.write,
        Some(MissingPermReason::Refined(region_of_loan_0()))
    );
    let older = boundary_for_call(&ctxt, &assigned_twice(vec![(2, 1)]), call, to_range)
        .unwrap()
        .unwrap();
    assert_eq!(older.actual, Permissions { read: true, write: false, drop: true });
    assert_eq!(older.explanations.write, Some(MissingPermReason::InsufficientType));
}

#[test]
fn assignments_without_an_order_are_taken_as_listed() {
    let ctxt = ctxt();
    let call = MethodCall { fn_span: sp(22, 27), receiver_type: Some(Mutability::Mut) };
    for predecessors in [vec![], vec![(1, 2), (2, 1)], vec![(1, 3), (3, 2)]] {
        let boundary = boundary_for_call(&ctxt, &assigned_twice(predecessors), call, to_range)
            .unwrap()
            .unwrap();
        assert_eq!(boundary.actual, Permissions { read: true, write: false, drop: true });
    }
}

#[test]
fn the_most_recent_assignment_decides_what_is_not_supported() {
    let ctxt = ctxt();
    let call = MethodCall { fn_span: sp(22, 27), receiver_type: None };
    let calls = |predecessors: Vec<(usize, usize)>| BodyCalls {
        call_sites: vec![CallSite { point: 4, fn_span: sp(21, 27), receiver: 1 }],
        definitions: vec![
            Definition { local: 1, point: 1, assigned: Some(Rvalue::Other) },
            Definition { local: 1, point: 2, assigned: Some(Rvalue::Ref(0)) },
        ],
        predecessors,
    };
    assert_eq!(
        boundary_for_call(&ctxt, &calls(vec![(2, 1)]), call, to_range),
        Err(BoundaryError::UnsupportedAssignment { point: 1 })
    );
    assert_eq!(
        boundary_for_call(&ctxt, &calls(vec![]), call, to_range),
        Err(BoundaryError::UnsupportedAssignment { point: 1 })
    );
    let traced = boundary_for_call(&ctxt, &calls(vec![(1, 2)]), call, to_range).unwrap().unwrap();
    assert_eq!(traced.actual, Permissions { read: true, write: false, drop: true });
}

#[test]
fn the_spans_of_a_loan_lie_within_the_window() {
    let ctxt = ctxt();
    for (min, max) in [(sp(12, 14), sp(40, 45)), (sp(0, 1), sp(99, 100)), (sp(21, 22), sp(23, 24))] {
        let spans = loan_to_spans(&ctxt, 0, min, max);
        assert!(!spans.is_empty());
        for span in spans {
            assert!(min.lo <= span.lo && span.hi <= max.hi);
            assert!(span.is_well_formed());
        }
    }
    assert_eq!(
        loan_to_spans(&ctxt, 0, sp(0, 1), sp(99, 100)),
        vec![sp(0, 1), sp(12, 25), sp(40, 45), sp(99, 100)]
    );
}
