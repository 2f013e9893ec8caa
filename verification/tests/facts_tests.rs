use aquascope::context::PermissionsCtxt;
use aquascope::facts::{holds, holds_first, holds_pair, is_mutable_loan, relates_to, InputFacts, LoanData, PointData};
use aquascope::output::{compute, compute_permissions, derive_permission_facts, Output};
use aquascope::permissions::{Mutability, Permissions};
use aquascope::place::{PathTable, Place, PlaceData, PlaceElem, Pointer};
use aquascope::span::Span;

fn sp(lo: u32, hi: u32) -> Span {
    Span { lo, hi }
}

fn data(local: usize, projection: Vec<PlaceElem>, declared_readonly: bool) -> PlaceData {
    PlaceData {
        place: Place { local, projection },
        declared_readonly,
        copyable: false,
        source_visible: true,
        name: None,
    }
}

fn loan(borrowed: usize, mutable: bool, region: (usize, usize)) -> LoanData {
    LoanData { borrowed, mutable, reserve_span: sp(0, 0), region }
}

fn points(n: usize) -> Vec<PointData> {
    (0..n).map(|i| PointData { span: sp(10 * i as u32, 10 * i as u32 + 5), enclosing: vec![] }).collect()
}

/// Paths: 0 = `x` (mutable binding), 1 = `r` (read-only binding),
/// 2 = `*r` behind an exclusive reference, 3 = `*s` behind a shared one.
fn table() -> PathTable {
    let mut table = PathTable::new();
    table.new_path(data(0, vec![], false));
    table.new_path(data(1, vec![], true));
    table.new_path(data(1, vec![PlaceElem::Deref(Pointer::MutRef)], true));
    table.new_path(data(2, vec![PlaceElem::Deref(Pointer::SharedRef)], false));
    table
}

fn all_live(n_points: usize) -> Vec<(usize, Vec<usize>)> {
    (0..n_points).map(|p| (p, vec![0, 1, 2, 3])).collect()
}

/// `x` is borrowed exclusively by loan 0, which is live at points 1 to 3.
fn exclusive_borrow() -> InputFacts {
    InputFacts {
        loans: vec![loan(0, true, (1, 3))],
        points: points(5),
        loan_issued_at: vec![(0, 1)],
        loan_live_at: vec![(1, vec![0]), (2, vec![0]), (3, vec![0])],
        cfg_edge: vec![(0, 1), (1, 2), (2, 3), (3, 4)],
        path_maybe_uninitialized_on_exit: vec![],
        path_live_at: all_live(5),
        loan_conflicts: vec![(0, 0)],
    }
}

fn refiner(
    table: &std::collections::HashMap<usize, std::collections::HashMap<usize, usize>>,
    path: usize,
    point: usize,
) -> Option<usize> {
    table.get(&point).and_then(|inner| inner.get(&path)).copied()
}

#[test]
fn lookups_in_plain_lists() {
    assert!(holds(&vec![3, 5, 8], 5));
    assert!(!holds(&vec![3, 5, 8], 4));
    assert!(!holds(&vec![], 0));
    assert!(holds_first(&vec![(1, 9), (4, 2)], 4));
    assert!(!holds_first(&vec![(1, 9), (4, 2)], 9));
    assert!(holds_pair(&vec![(1, 9), (4, 2)], 4, 2));
    assert!(!holds_pair(&vec![(1, 9), (4, 2)], 2, 4));
    let keyed = vec![(1, vec![7, 8]), (2, vec![]), (1, vec![9])];
    assert!(relates_to(&keyed, 1, 8));
    assert!(relates_to(&keyed, 1, 9));
    assert!(!relates_to(&keyed, 2, 8));
    assert!(!relates_to(&keyed, 3, 7));
}

#[test]
fn mutable_loans_are_the_exclusive_ones_of_the_list() {
    let loans = vec![loan(0, true, (0, 0)), loan(0, false, (0, 0))];
    assert!(is_mutable_loan(&loans, 0));
    assert!(!is_mutable_loan(&loans, 1));
    assert!(!is_mutable_loan(&loans, 2));
}

#[test]
fn default_output_is_empty() {
    let out = Output::default();
    assert!(out.never_write.is_empty());
    assert!(out.never_drop.is_empty());
    assert!(out.cannot_read.is_empty());
    assert!(out.cannot_write.is_empty());
    assert!(out.cannot_drop.is_empty());
    assert!(out.path_maybe_uninitialized_on_entry.is_empty());
}

#[test]
fn structural_facts_of_the_interned_paths() {
    let ctxt = compute(table(), exclusive_borrow());
    let out = &ctxt.permissions_output;
    let mut never_write: Vec<usize> = out.never_write.iter().copied().collect();
    never_write.sort();
    assert_eq!(never_write, vec![1, 3]);
    let mut never_drop: Vec<usize> = out.never_drop.iter().copied().collect();
    never_drop.sort();
    assert_eq!(never_drop, vec![2, 3]);
}

#[test]
fn exclusive_borrow_refines_for_its_live_window() {
    let ctxt = compute(table(), exclusive_borrow());
    let out = &ctxt.permissions_output;
    for point in 0..5 {
        let expected = if (1..=3).contains(&point) { Some(0) } else { None };
        assert_eq!(refiner(&out.cannot_read, 0, point), expected);
        assert_eq!(refiner(&out.cannot_write, 0, point), expected);
        assert_eq!(refiner(&out.cannot_drop, 0, point), expected);
        let p = ctxt.permissions_at_point(0, point);
        let free = expected.is_none();
        assert_eq!(p, Permissions { read: free, write: free, drop: free });
    }
    for point in 0..5 {
        assert_eq!(refiner(&out.cannot_write, 1, point), None);
    }
}

#[test]
fn derive_replaces_what_was_derived_before() {
    let mut ctxt = compute(table(), exclusive_borrow());
    ctxt.facts.loan_live_at = vec![(4, vec![0])];
    derive_permission_facts(&mut ctxt);
    let out = &ctxt.permissions_output;
    assert_eq!(refiner(&out.cannot_write, 0, 2), None);
    assert_eq!(refiner(&out.cannot_write, 0, 4), Some(0));
}

#[test]
fn removing_a_loan_from_liveness_removes_the_entry() {
    let with = compute(table(), exclusive_borrow());
    assert_eq!(refiner(&with.permissions_output.cannot_write, 0, 2), Some(0));
    assert_eq!(refiner(&with.permissions_output.cannot_drop, 0, 2), Some(0));
    let mut facts = exclusive_borrow();
    facts.loan_live_at = vec![(1, vec![0]), (2, vec![]), (3, vec![0])];
    let without = compute(table(), facts);
    assert_eq!(refiner(&without.permissions_output.cannot_write, 0, 2), None);
    assert_eq!(refiner(&without.permissions_output.cannot_drop, 0, 2), None);
    assert_eq!(refiner(&without.permissions_output.cannot_write, 0, 1), Some(0));
    assert_eq!(refiner(&without.permissions_output.cannot_write, 0, 3), Some(0));
}

#[test]
fn shared_borrow_blocks_write_and_drop_but_not_read() {
    let mut facts = exclusive_borrow();
    facts.loans = vec![loan(0, false, (1, 3))];
    let ctxt = compute(table(), facts);
    let out = &ctxt.permissions_output;
    assert_eq!(refiner(&out.cannot_read, 0, 2), None);
    assert_eq!(refiner(&out.cannot_write, 0, 2), Some(0));
    assert_eq!(refiner(&out.cannot_drop, 0, 2), Some(0));
    assert_eq!(
        ctxt.permissions_at_point(0, 2),
        Permissions { read: true, write: false, drop: false }
    );
}

#[test]
fn the_greatest_refining_loan_is_retained() {
    let mut facts = exclusive_borrow();
    facts.loans = vec![loan(0, true, (1, 3)), loan(0, false, (2, 2)), loan(0, true, (2, 3))];
    facts.loan_issued_at = vec![(2, 2), (0, 1), (1, 2)];
    facts.loan_live_at = vec![(3, vec![2, 0]), (2, vec![1, 2, 0]), (1, vec![0])];
    facts.loan_conflicts = vec![(2, 0), (1, 0), (0, 0), (0, 0)];
    let ctxt = compute(table(), facts);
    let out = &ctxt.permissions_output;
    assert_eq!(refiner(&out.cannot_write, 0, 1), Some(0));
    assert_eq!(refiner(&out.cannot_write, 0, 2), Some(2));
    assert_eq!(refiner(&out.cannot_write, 0, 3), Some(2));
    assert_eq!(refiner(&out.cannot_drop, 0, 2), Some(2));
    assert_eq!(refiner(&out.cannot_read, 0, 2), Some(2));
}

#[test]
fn the_greatest_exclusive_loan_refines_reads() {
    let mut facts = exclusive_borrow();
    facts.loans = vec![loan(0, true, (1, 3)), loan(0, false, (2, 2))];
    facts.loan_issued_at = vec![(1, 2), (0, 1)];
    facts.loan_live_at = vec![(2, vec![1, 0])];
    facts.loan_conflicts = vec![(1, 0), (0, 0)];
    let ctxt = compute(table(), facts);
    let out = &ctxt.permissions_output;
    assert_eq!(refiner(&out.cannot_write, 0, 2), Some(1));
    assert_eq!(refiner(&out.cannot_read, 0, 2), Some(0));
}

#[test]
fn a_loan_that_is_not_issued_refines_nothing() {
    let mut facts = exclusive_borrow();
    facts.loan_issued_at = vec![];
    let ctxt = compute(table(), facts);
    assert!(ctxt.permissions_output.cannot_write.is_empty());
    assert!(ctxt.permissions_output.cannot_read.is_empty());
    assert!(ctxt.permissions_output.cannot_drop.is_empty());
}

#[test]
fn a_conflict_with_a_path_that_is_not_interned_is_ignored() {
    let mut facts = exclusive_borrow();
    facts.loan_conflicts = vec![(0, 9)];
    let ctxt = compute(table(), facts);
    assert!(ctxt.permissions_output.cannot_write.is_empty());
}

#[test]
fn moves_reach_the_successors_by_one_edge() {
    let mut facts = exclusive_borrow();
    facts.loan_live_at = vec![];
    facts.path_maybe_uninitialized_on_exit = vec![(1, vec![0])];
    facts.cfg_edge = vec![(0, 1), (1, 2), (1, 4), (2, 3)];
    let ctxt = compute(table(), facts);
    let moved = &ctxt.permissions_output.path_maybe_uninitialized_on_entry;
    let at = |point: usize| moved.get(&point).map_or(false, |paths| paths.contains(&0));
    assert!(!at(0));
    assert!(!at(1));
    assert!(at(2));
    assert!(!at(3));
    assert!(at(4));
    let used = ctxt.permissions_data_at_point(0, 2);
    assert!(used.path_moved);
    assert_eq!(used.permissions, Permissions { read: false, write: false, drop: false });
    let before = ctxt.permissions_data_at_point(0, 1);
    assert!(!before.path_moved);
    assert_eq!(before.permissions, Permissions { read: true, write: true, drop: true });
}

#[test]
fn structural_denials_hold_at_every_point() {
    let ctxt = compute(table(), exclusive_borrow());
    for point in 0..5 {
        for path in 0..4 {
            let p = ctxt.permissions_at_point(path, point);
            if ctxt.permissions_output.never_write.contains(&path) {
                assert!(!p.write);
            }
            if ctxt.permissions_output.never_drop.contains(&path) {
                assert!(!p.drop);
            }
        }
    }
    assert_eq!(ctxt.permissions_at_point(1, 0), Permissions { read: true, write: false, drop: true });
    assert_eq!(ctxt.permissions_at_point(2, 0), Permissions { read: true, write: true, drop: false });
    assert_eq!(ctxt.permissions_at_point(3, 0), Permissions { read: true, write: false, drop: false });
}

#[test]
fn a_dead_path_holds_nothing() {
    let mut facts = exclusive_borrow();
    facts.path_live_at = vec![(0, vec![1]), (1, vec![0, 1])];
    let ctxt = compute(table(), facts);
    let dead = ctxt.permissions_data_at_point(0, 0);
    assert!(!dead.is_live);
    assert!(dead.type_writeable);
    assert!(dead.type_droppable);
    assert_eq!(dead.permissions, Permissions::bottom());
    assert!(ctxt.permissions_data_at_point(1, 0).is_live);
    assert!(!ctxt.permissions_data_at_point(1, 3).is_live);
}

#[test]
fn data_at_a_point_names_the_refining_loans() {
    let ctxt = compute(table(), exclusive_borrow());
    let d = ctxt.permissions_data_at_point(0, 2);
    assert!(d.is_live);
    assert_eq!(d.loan_read_refined, Some(0));
    assert_eq!(d.loan_write_refined, Some(0));
    assert_eq!(d.loan_drop_refined, Some(0));
    assert!(!d.type_copyable);
    let r = ctxt.permissions_data_at_point(3, 2);
    assert!(!r.type_writeable);
    assert!(!r.type_droppable);
    assert_eq!(r.loan_write_refined, None);
}

#[test]
fn domains_hold_every_path() {
    let ctxt = compute(table(), exclusive_borrow());
    let domain = ctxt.permissions_domain_at_point(2);
    assert_eq!(domain.entries.len(), 4);
    assert_eq!(domain.entries[0].permissions, Permissions::bottom());
    assert_eq!(domain.entries[1].permissions, Permissions { read: true, write: false, drop: true });
    let after = ctxt.permissions_domain_after_point_effect(3).unwrap();
    assert_eq!(after.entries[0].permissions, Permissions { read: true, write: true, drop: true });
    let within = ctxt.permissions_domain_after_point_effect(0).unwrap();
    assert_eq!(within.entries[0].permissions, Permissions::bottom());
    assert!(ctxt.permissions_domain_after_point_effect(4).is_none());
}

#[test]
fn well_formed_facts_are_analysed() {
    assert!(exclusive_borrow().is_well_formed());
    let found: Option<PermissionsCtxt> = compute_permissions(table(), exclusive_borrow());
    let ctxt = found.unwrap();
    assert_eq!(refiner(&ctxt.permissions_output.cannot_write, 0, 1), Some(0));
}

#[test]
fn facts_that_name_an_unknown_loan_are_refused() {
    let mut facts = exclusive_borrow();
    facts.loan_issued_at = vec![(0, 1), (1, 2)];
    assert!(!facts.is_well_formed());
    assert!(compute_permissions(table(), facts).is_none());
}

#[test]
fn facts_that_name_an_unknown_point_are_refused() {
    let mut facts = exclusive_borrow();
    facts.loans = vec![loan(0, true, (1, 5))];
    assert!(!facts.is_well_formed());
    assert!(compute_permissions(table(), facts).is_none());
    let mut facts = exclusive_borrow();
    facts.loan_live_at = vec![(7, vec![0])];
    assert!(!facts.is_well_formed());
    assert!(compute_permissions(table(), facts).is_none());
    for edge in [(4, 5), (5, 0)] {
        let mut facts = exclusive_borrow();
        facts.cfg_edge.push(edge);
        assert!(!facts.is_well_formed());
        assert!(compute_permissions(table(), facts).is_none());
    }
}

#[test]
fn expected_permissions_of_a_receiver_type() {
    assert_eq!(Permissions::from(None), Permissions { read: true, write: false, drop: true });
    assert_eq!(
        Permissions::from(Some(Mutability::Not)),
        Permissions { read: true, write: false, drop: false }
    );
    assert_eq!(
        Permissions::from(Some(Mutability::Mut)),
        Permissions { read: true, write: true, drop: false }
    );
}

#[test]
fn permissions_in_short() {
    assert_eq!(Permissions { read: true, write: true, drop: true }.to_text(), "RWD");
    assert_eq!(Permissions { read: true, write: false, drop: true }.to_text(), "RD");
    assert_eq!(Permissions { read: false, write: true, drop: false }.to_text(), "W");
    assert_eq!(Permissions { read: true, write: false, drop: false }.to_text(), "R");
    assert_eq!(Permissions::bottom().to_text(), "\u{2205}");
}

#[test]
fn facts_with_a_span_that_ends_before_it_starts_are_refused() {
    let mut facts = exclusive_borrow();
    facts.loans[0].reserve_span = Span { lo: 5, hi: 4 };
    assert!(!facts.is_well_formed());
    assert!(compute_permissions(table(), facts).is_none());
    let mut facts = exclusive_borrow();
    facts.points[2].span = Span { lo: 9, hi: 0 };
    assert!(!facts.is_well_formed());
    let mut facts = exclusive_borrow();
    facts.points[4].enclosing = vec![sp(0, 3), Span { lo: 3, hi: 2 }];
    assert!(!facts.is_well_formed());
    let mut facts = exclusive_borrow();
    facts.points[4].enclosing = vec![sp(0, 3), sp(3, 3)];
    assert!(facts.is_well_formed());
}
