use aquascope::context::PermissionsCtxt;
use aquascope::facts::{InputFacts, LoanData, PointData};
use aquascope::flow::{contains_path, extend_scope, shed_scope, HirPermDiffFlow};
use aquascope::output::compute;
use aquascope::permissions::{Permissions, PermissionsData};
use aquascope::place::{PathTable, Place, PlaceData, PlaceElem, Pointer};
use aquascope::span::{Range, Span};
use aquascope::stepper::{
    Difference, PermIncludeMode, PermissionsDataDiff, PermissionsDiff, ValueStep,
};
use aquascope::steps::{
    compute_permission_steps, is_place_not_behind, prettify_permission_steps, Incomplete,
    PermissionsStateStep,
};
use aquascope::visit::{Node, NodeKind};

fn sp(lo: u32, hi: u32) -> Span {
    Span { lo, hi }
}

fn to_range(span: Span) -> Range {
    Range {
        char_start: span.lo as usize,
        char_end: span.hi as usize,
        byte_start: span.lo as usize,
        byte_end: span.hi as usize,
        filename: 0,
    }
}

fn at(end: u32) -> Range {
    to_range(sp(end, end))
}

fn data(local: usize, projection: Vec<PlaceElem>, visible: bool, name: Option<&str>) -> PlaceData {
    PlaceData {
        place: Place { local, projection },
        declared_readonly: false,
        copyable: false,
        source_visible: visible,
        name: name.map(|n| n.to_string()),
    }
}

/// Paths: 0 = `x`, 1 = `y`, 2 = a temporary that the source cannot name,
/// 3 = `x.0`, 4 = a place without a name.
fn table() -> PathTable {
    let mut table = PathTable::new();
    table.new_path(data(0, vec![], true, Some("x")));
    table.new_path(data(1, vec![], true, Some("y")));
    table.new_path(data(2, vec![], false, None));
    table.new_path(data(0, vec![PlaceElem::Field(0)], true, Some("x.0")));
    table.new_path(data(3, vec![], true, None));
    table
}

fn points(n: usize) -> Vec<PointData> {
    (0..n).map(|_| PointData { span: sp(0, 0), enclosing: vec![] }).collect()
}

/// `x` is live everywhere; a shared loan of `x` is live at points 3 and 6.
/// Point 3 leads to point 6; points 5 and 6 lead nowhere.
fn facts() -> InputFacts {
    InputFacts {
        loans: vec![LoanData { borrowed: 0, mutable: false, reserve_span: sp(0, 0), region: (3, 6) }],
        points: points(7),
        loan_issued_at: vec![(0, 3)],
        loan_live_at: vec![(3, vec![0]), (6, vec![0])],
        cfg_edge: vec![(0, 1), (1, 2), (2, 3), (3, 6), (1, 4), (4, 5)],
        path_maybe_uninitialized_on_exit: vec![],
        path_live_at: (0..7).map(|p| (p, vec![0])).collect(),
        loan_conflicts: vec![(0, 0)],
    }
}

fn ctxt() -> PermissionsCtxt {
    compute(table(), facts())
}

fn node(kind: NodeKind, span: Span, locations: Option<(usize, usize)>, children: Vec<Node>) -> Node {
    Node { kind, span, locations, children }
}

fn same<A>(value: Option<A>) -> ValueStep<A> {
    ValueStep::Unchanged { value }
}

/// What `x` gains where the body begins.
fn x_appears() -> PermissionsDataDiff {
    PermissionsDataDiff {
        is_live: ValueStep::High,
        type_droppable: ValueStep::High,
        type_writeable: ValueStep::High,
        path_moved: same(Some(false)),
        loan_read_refined: same(None),
        loan_write_refined: same(None),
        loan_drop_refined: same(None),
        permissions: PermissionsDiff {
            read: ValueStep::High,
            write: ValueStep::High,
            drop: ValueStep::High,
        },
    }
}

/// What `x` loses where the shared loan begins.
fn x_is_borrowed() -> PermissionsDataDiff {
    PermissionsDataDiff {
        is_live: same(Some(true)),
        type_droppable: same(Some(true)),
        type_writeable: same(Some(true)),
        path_moved: same(Some(false)),
        loan_read_refined: same(None),
        loan_write_refined: ValueStep::High,
        loan_drop_refined: ValueStep::High,
        permissions: PermissionsDiff {
            read: same(Some(true)),
            write: ValueStep::Low,
            drop: ValueStep::Low,
        },
    }
}

/// `x` as it is while nothing happens to it.
fn x_stays() -> PermissionsDataDiff {
    PermissionsDataDiff {
        is_live: same(Some(true)),
        type_droppable: same(Some(true)),
        type_writeable: same(Some(true)),
        path_moved: same(Some(false)),
        loan_read_refined: same(None),
        loan_write_refined: same(None),
        loan_drop_refined: same(None),
        permissions: PermissionsDiff {
            read: same(Some(true)),
            write: same(Some(true)),
            drop: same(Some(true)),
        },
    }
}

fn step(end: u32, state: Vec<(&str, PermissionsDataDiff)>) -> PermissionsStateStep {
    PermissionsStateStep {
        location: at(end),
        state: state.into_iter().map(|(name, diff)| (name.to_string(), diff)).collect(),
    }
}

fn lines() -> Vec<u32> {
    vec![9, 45, 95, 120]
}

#[test]
fn modes_are_parsed_by_name() {
    assert_eq!(PermIncludeMode::parse("Changes"), Ok(PermIncludeMode::Changes));
    assert_eq!(PermIncludeMode::parse("All"), Ok(PermIncludeMode::All));
    assert_eq!("All".parse::<PermIncludeMode>(), Ok(PermIncludeMode::All));
    assert_eq!("Changes".parse::<PermIncludeMode>(), Ok(PermIncludeMode::Changes));
}

#[test]
fn an_unknown_mode_is_reported_with_its_text() {
    assert_eq!(PermIncludeMode::parse("all"), Err("Could not parse: all".to_string()));
    assert_eq!(PermIncludeMode::parse(""), Err("Could not parse: ".to_string()));
    assert_eq!(
        "Changes ".parse::<PermIncludeMode>(),
        Err("Could not parse: Changes ".to_string())
    );
}

#[test]
fn truth_values_rise_fall_or_stay() {
    assert_eq!(true.diff(false), ValueStep::Low);
    assert_eq!(false.diff(true), ValueStep::High);
    assert_eq!(true.diff(true), same(Some(true)));
    assert_eq!(false.diff(false), same(Some(false)));
}

#[test]
fn optional_values_rise_fall_or_stay() {
    assert_eq!(None::<usize>.diff(None), same(None));
    assert_eq!(Some(3usize).diff(None), ValueStep::Low);
    assert_eq!(None.diff(Some(3usize)), ValueStep::High);
    assert_eq!(Some(3usize).diff(Some(3)), same(Some(3)));
    assert_eq!(Some(3usize).diff(Some(8)), same(Some(8)));
}

#[test]
fn a_step_is_empty_when_nothing_rises_or_falls() {
    assert!(same(Some(1)).is_empty());
    assert!(same(None::<bool>).is_empty());
    assert!(!ValueStep::<bool>::High.is_empty());
    assert!(!ValueStep::<bool>::Low.is_empty());
    assert!(x_stays().is_empty());
    assert!(x_stays().permissions.is_empty());
    assert!(!x_is_borrowed().is_empty());
    let mut only_loans = x_stays();
    only_loans.loan_write_refined = ValueStep::High;
    only_loans.is_live = ValueStep::Low;
    assert!(only_loans.is_empty());
}

#[test]
fn permissions_differ_by_capability() {
    let from = Permissions { read: true, write: true, drop: false };
    let to = Permissions { read: true, write: false, drop: true };
    assert_eq!(
        from.diff(to),
        PermissionsDiff { read: same(Some(true)), write: ValueStep::Low, drop: ValueStep::High }
    );
}

#[test]
fn data_differs_field_by_field() {
    let ctxt = ctxt();
    let before: PermissionsData = ctxt.permissions_data_at_point(0, 1);
    let after: PermissionsData = ctxt.permissions_data_at_point(0, 6);
    assert_eq!(before.diff(after), x_is_borrowed());
    assert_eq!(before.diff(before), x_stays());
    let back = after.diff(before);
    assert_eq!(back.loan_write_refined, ValueStep::Low);
    assert_eq!(back.permissions.write, ValueStep::High);
}

#[test]
fn domains_differ_path_by_path() {
    let ctxt = ctxt();
    let before = ctxt.permissions_domain_at_point(1);
    let after = ctxt.permissions_domain_at_point(6);
    let from = &before;
    let steps = from.diff(&after);
    assert_eq!(steps.len(), 5);
    assert_eq!(steps[0], (0, x_is_borrowed()));
    for (i, entry) in steps.iter().enumerate() {
        assert_eq!(entry.0, i);
    }
    assert_eq!(steps[1].1.is_live, same(Some(false)));
}

#[test]
fn scopes_shed_what_is_claimed() {
    let scope = vec![(0, x_stays()), (3, x_is_borrowed()), (1, x_appears())];
    let claimed = vec![(3, x_stays()), (7, x_stays())];
    assert!(contains_path(&scope, 3));
    assert!(!contains_path(&scope, 7));
    assert_eq!(shed_scope(&scope, &claimed), vec![(0, x_stays()), (1, x_appears())]);
    assert_eq!(shed_scope(&scope, &vec![]), scope);
    assert_eq!(
        extend_scope(&scope, claimed),
        vec![(0, x_stays()), (1, x_appears()), (3, x_stays()), (7, x_stays())]
    );
}

fn paths_of(scopes: &Vec<Vec<(usize, PermissionsDataDiff)>>) -> Vec<Vec<usize>> {
    scopes.iter().map(|scope| scope.iter().map(|entry| entry.0).collect()).collect()
}

#[test]
fn a_deeper_scope_takes_precedence() {
    let ctxt = ctxt();
    let mut flow = HirPermDiffFlow::new(PermIncludeMode::Changes);
    flow.open_scope(&ctxt, &vec![(0, x_is_borrowed()), (1, x_appears()), (3, x_appears())]);
    assert_eq!(paths_of(&flow.visibility_scopes), vec![vec![0, 1, 3]]);
    flow.open_scope(&ctxt, &vec![(3, x_is_borrowed()), (4, x_appears())]);
    assert_eq!(paths_of(&flow.visibility_scopes), vec![vec![0, 1], vec![3, 4]]);
    flow.open_scope(&ctxt, &vec![(0, x_appears()), (1, x_stays()), (4, x_is_borrowed())]);
    assert_eq!(paths_of(&flow.visibility_scopes), vec![vec![1], vec![3], vec![0, 4]]);
    for i in 0..flow.visibility_scopes.len() {
        for j in (i + 1)..flow.visibility_scopes.len() {
            for entry in &flow.visibility_scopes[i] {
                assert!(!contains_path(&flow.visibility_scopes[j], entry.0));
            }
        }
    }
    flow.close_scope(sp(5, 6));
    flow.close_scope(sp(4, 7));
    flow.close_scope(sp(5, 6));
    assert!(flow.visibility_scopes.is_empty());
    assert_eq!(
        flow.diff,
        vec![
            (sp(5, 6), vec![(0, x_appears()), (4, x_is_borrowed()), (1, x_appears())]),
            (sp(4, 7), vec![(3, x_is_borrowed())]),
        ]
    );
}

#[test]
fn a_scope_keeps_what_is_shown() {
    let ctxt = ctxt();
    let mut dead = x_stays();
    dead.is_live = same(Some(false));
    let mut dies = x_is_borrowed();
    dies.is_live = ValueStep::Low;
    let here = vec![(0, x_stays()), (1, dead), (3, dies), (4, x_appears()), (9, x_appears())];
    let mut changes = HirPermDiffFlow::new(PermIncludeMode::Changes);
    changes.open_scope(&ctxt, &here);
    assert_eq!(paths_of(&changes.visibility_scopes), vec![vec![4]]);
    let mut all = HirPermDiffFlow::new(PermIncludeMode::All);
    all.open_scope(&ctxt, &here);
    assert_eq!(paths_of(&all.visibility_scopes), vec![vec![0, 1, 4]]);
    assert!(changes.should_keep(&x_appears()));
    assert!(changes.should_keep(&x_is_borrowed()));
    assert!(!changes.should_keep(&x_stays()));
    assert!(!changes.should_keep(&dead));
    assert!(!changes.should_keep(&dies));
    assert!(all.should_keep(&x_stays()));
    assert!(all.should_keep(&dead));
    assert!(!all.should_keep(&dies));
}

/// What is known of a path that is dead, against nothing being known.
fn dead_appears() -> PermissionsDataDiff {
    PermissionsDataDiff {
        is_live: same(Some(false)),
        type_droppable: ValueStep::High,
        type_writeable: ValueStep::High,
        path_moved: same(Some(false)),
        loan_read_refined: same(None),
        loan_write_refined: same(None),
        loan_drop_refined: same(None),
        permissions: PermissionsDiff {
            read: same(Some(false)),
            write: same(Some(false)),
            drop: same(Some(false)),
        },
    }
}

/// A path that is dead and stays so.
fn dead_stays() -> PermissionsDataDiff {
    PermissionsDataDiff {
        type_droppable: same(Some(true)),
        type_writeable: same(Some(true)),
        ..dead_appears()
    }
}

#[test]
fn a_path_that_dies_is_not_shown_where_it_dies() {
    let mut facts = facts();
    facts.loan_live_at = vec![];
    facts.path_live_at = vec![(0, vec![0, 1]), (1, vec![0, 1]), (2, vec![0]), (3, vec![0])];
    let ctxt = compute(table(), facts);
    let tree = node(
        NodeKind::Block { tail: false },
        sp(0, 100),
        Some((1, 2)),
        vec![node(NodeKind::Stmt, sp(10, 40), Some((1, 2)), vec![])],
    );
    let changes =
        compute_permission_steps(&ctxt, &tree, PermIncludeMode::Changes, None, &lines(), to_range);
    assert_eq!(changes, Ok(vec![step(9, vec![("x", x_appears()), ("y", x_appears())])]));
    let all = compute_permission_steps(&ctxt, &tree, PermIncludeMode::All, None, &lines(), to_range);
    assert_eq!(
        all,
        Ok(vec![
            step(
                9,
                vec![
                    ("x", x_appears()),
                    ("x.0", dead_appears()),
                    ("y", x_appears()),
                    ("<var>", dead_appears()),
                ]
            ),
            step(45, vec![("x", x_stays()), ("x.0", dead_stays()), ("<var>", dead_stays())]),
        ])
    );
}

fn branch_tree() -> Node {
    node(
        NodeKind::If,
        sp(0, 100),
        Some((0, 6)),
        vec![
            node(NodeKind::Other, sp(3, 8), Some((0, 1)), vec![]),
            node(NodeKind::Other, sp(10, 40), Some((2, 3)), vec![]),
            node(NodeKind::Other, sp(50, 90), Some((4, 5)), vec![]),
        ],
    )
}

#[test]
fn a_change_in_one_branch_shows_at_that_branch_alone() {
    let ctxt = ctxt();
    let steps =
        compute_permission_steps(&ctxt, &branch_tree(), PermIncludeMode::Changes, None, &lines(), to_range);
    assert_eq!(
        steps,
        Ok(vec![step(9, vec![("x", x_appears())]), step(45, vec![("x", x_is_borrowed())])])
    );
}

#[test]
fn in_the_mode_for_all_paths_every_live_path_shows_at_each_node() {
    let ctxt = ctxt();
    let steps =
        compute_permission_steps(&ctxt, &branch_tree(), PermIncludeMode::All, None, &lines(), to_range);
    let dead = |first: PermissionsDataDiff| {
        vec![("x.0", first), ("y", first), ("<var>", first)]
    };
    let mut begin = vec![("x", x_appears()), ("x", x_stays())];
    for name in ["x.0", "y", "<var>"] {
        begin.push((name, dead_appears()));
        begin.push((name, dead_stays()));
    }
    let mut then = vec![("x", x_is_borrowed())];
    then.extend(dead(dead_stays()));
    let mut otherwise = vec![("x", x_stays())];
    otherwise.extend(dead(dead_stays()));
    assert_eq!(steps, Ok(vec![step(9, begin), step(45, then), step(95, otherwise)]));
}

#[test]
fn a_branch_that_is_never_executed_is_passed_over() {
    let ctxt = ctxt();
    let mut tree = branch_tree();
    tree.children[1].locations = None;
    let steps = compute_permission_steps(&ctxt, &tree, PermIncludeMode::Changes, None, &lines(), to_range);
    assert_eq!(
        steps,
        Ok(vec![step(9, vec![("x", x_appears())]), step(120, vec![("x", x_is_borrowed())])])
    );
}

#[test]
fn a_body_that_is_never_executed_has_no_steps() {
    let ctxt = ctxt();
    let tree = node(NodeKind::Other, sp(0, 100), None, vec![]);
    let steps = compute_permission_steps(&ctxt, &tree, PermIncludeMode::Changes, None, &lines(), to_range);
    assert_eq!(steps, Ok(vec![]));
}

#[test]
fn a_change_sinks_into_the_innermost_statement() {
    let ctxt = ctxt();
    let tree = node(
        NodeKind::Block { tail: false },
        sp(0, 100),
        Some((0, 3)),
        vec![
            node(NodeKind::Stmt, sp(3, 8), Some((0, 1)), vec![]),
            node(
                NodeKind::Stmt,
                sp(10, 40),
                Some((1, 2)),
                vec![node(NodeKind::Other, sp(12, 30), Some((1, 2)), vec![])],
            ),
        ],
    );
    let steps = compute_permission_steps(&ctxt, &tree, PermIncludeMode::Changes, None, &lines(), to_range);
    assert_eq!(
        steps,
        Ok(vec![step(9, vec![("x", x_appears())]), step(45, vec![("x", x_is_borrowed())])])
    );
}

#[test]
fn the_expression_that_ends_a_block_has_a_scope_of_its_own() {
    let ctxt = ctxt();
    let tree = node(
        NodeKind::Block { tail: true },
        sp(0, 100),
        Some((0, 3)),
        vec![
            node(NodeKind::Stmt, sp(3, 8), Some((0, 1)), vec![]),
            node(NodeKind::Other, sp(50, 60), Some((1, 2)), vec![]),
        ],
    );
    let steps = compute_permission_steps(&ctxt, &tree, PermIncludeMode::Changes, None, &lines(), to_range);
    assert_eq!(
        steps,
        Ok(vec![step(9, vec![("x", x_appears())]), step(95, vec![("x", x_is_borrowed())])])
    );
    let mut plain = tree;
    plain.kind = NodeKind::Block { tail: false };
    let steps = compute_permission_steps(&ctxt, &plain, PermIncludeMode::Changes, None, &lines(), to_range);
    assert_eq!(
        steps,
        Ok(vec![step(9, vec![("x", x_appears())]), step(120, vec![("x", x_is_borrowed())])])
    );
}

/// `y` comes alive at point 3, at the end of the first branch.
fn binding_facts() -> InputFacts {
    let mut facts = facts();
    facts.loan_live_at = vec![];
    facts.path_live_at = vec![(3, vec![1]), (6, vec![1])];
    facts
}

fn let_tree(binding: Option<usize>) -> Node {
    node(
        NodeKind::Stmt,
        sp(0, 60),
        Some((0, 6)),
        vec![node(
            NodeKind::Local { binding, has_else: false },
            sp(0, 60),
            None,
            vec![node(
                NodeKind::If,
                sp(8, 58),
                Some((0, 6)),
                vec![
                    node(NodeKind::Other, sp(11, 14), Some((0, 1)), vec![]),
                    node(NodeKind::Other, sp(16, 30), Some((2, 3)), vec![]),
                    node(NodeKind::Other, sp(36, 50), Some((4, 5)), vec![]),
                ],
            )],
        )],
    )
}

#[test]
fn a_binding_shows_at_its_let_and_not_inside_the_initializer() {
    let ctxt = compute(table(), binding_facts());
    let lines = vec![15, 31, 51, 59, 61];
    let held = compute_permission_steps(
        &ctxt,
        &let_tree(Some(1)),
        PermIncludeMode::Changes,
        None,
        &lines,
        to_range,
    );
    let mut comes_alive = x_appears();
    comes_alive.type_droppable = same(Some(true));
    comes_alive.type_writeable = same(Some(true));
    assert_eq!(held, Ok(vec![step(61, vec![("y", comes_alive)])]));
    let free =
        compute_permission_steps(&ctxt, &let_tree(None), PermIncludeMode::Changes, None, &lines, to_range);
    assert_eq!(free, Ok(vec![step(31, vec![("y", comes_alive)])]));
}

#[test]
fn a_let_with_an_else_stops_the_walk() {
    let ctxt = ctxt();
    let tree = node(
        NodeKind::Block { tail: false },
        sp(0, 100),
        Some((0, 3)),
        vec![
            node(NodeKind::Stmt, sp(10, 40), Some((1, 2)), vec![]),
            node(
                NodeKind::Stmt,
                sp(50, 60),
                None,
                vec![node(NodeKind::Local { binding: None, has_else: true }, sp(50, 60), None, vec![])],
            ),
            node(NodeKind::Stmt, sp(96, 99), Some((0, 6)), vec![]),
        ],
    );
    let steps = compute_permission_steps(&ctxt, &tree, PermIncludeMode::Changes, None, &lines(), to_range);
    assert_eq!(
        steps,
        Err(Incomplete {
            steps: vec![step(9, vec![("x", x_appears())]), step(45, vec![("x", x_is_borrowed())])],
        })
    );
}

#[test]
fn steps_of_one_line_are_gathered_and_ordered_by_place() {
    let ctxt = ctxt();
    let perm_steps = vec![
        (sp(1, 5), vec![(1, x_appears()), (3, x_is_borrowed())]),
        (sp(12, 18), vec![(0, x_stays())]),
        (sp(6, 8), vec![(4, x_stays()), (0, x_appears()), (2, x_appears()), (1, x_stays())]),
    ];
    let steps = prettify_permission_steps(&ctxt, &perm_steps, None, &vec![10, 20], to_range);
    assert_eq!(
        steps,
        vec![
            step(
                10,
                vec![
                    ("x", x_appears()),
                    ("x.0", x_is_borrowed()),
                    ("y", x_appears()),
                    ("y", x_stays()),
                    ("<var>", x_stays()),
                ]
            ),
            step(20, vec![("x", x_stays())]),
        ]
    );
}

#[test]
fn steps_behind_the_first_error_are_left_out() {
    let ctxt = ctxt();
    let perm_steps = vec![
        (sp(1, 5), vec![(0, x_appears())]),
        (sp(12, 14), vec![(0, x_stays())]),
        (sp(22, 24), vec![(0, x_is_borrowed())]),
    ];
    let lines = vec![10, 20, 30];
    let all = prettify_permission_steps(&ctxt, &perm_steps, None, &lines, to_range);
    assert_eq!(all.len(), 3);
    let upto = prettify_permission_steps(&ctxt, &perm_steps, Some(sp(15, 19)), &lines, to_range);
    assert_eq!(upto, vec![step(10, vec![("x", x_appears())])]);
    let touching = prettify_permission_steps(&ctxt, &perm_steps, Some(sp(15, 20)), &lines, to_range);
    assert_eq!(
        touching,
        vec![step(10, vec![("x", x_appears())]), step(20, vec![("x", x_stays())])]
    );
}

#[test]
fn what_the_source_cannot_name_is_not_shown() {
    let ctxt = ctxt();
    let perm_steps = vec![
        (sp(1, 5), vec![(2, x_appears())]),
        (sp(12, 14), vec![]),
        (sp(22, 24), vec![(9, x_appears())]),
    ];
    assert_eq!(prettify_permission_steps(&ctxt, &perm_steps, None, &vec![10, 20, 30], to_range), vec![]);
}

#[test]
fn a_span_behind_the_last_line_end_shows_at_its_own_end() {
    let ctxt = ctxt();
    let perm_steps = vec![(sp(31, 35), vec![(0, x_appears())]), (sp(2, 10), vec![(0, x_stays())])];
    assert_eq!(
        prettify_permission_steps(&ctxt, &perm_steps, None, &vec![30, 10, 20], to_range),
        vec![step(35, vec![("x", x_appears())]), step(10, vec![("x", x_stays())])]
    );
}

#[test]
fn places_are_ordered_by_local_and_then_by_projection() {
    let place = |local: usize, projection: Vec<PlaceElem>| Place { local, projection };
    let a = place(0, vec![]);
    let b = place(0, vec![PlaceElem::Field(0)]);
    let c = place(0, vec![PlaceElem::Field(1)]);
    let d = place(0, vec![PlaceElem::Deref(Pointer::MutRef)]);
    let e = place(0, vec![PlaceElem::Field(0), PlaceElem::Index(2)]);
    let f = place(1, vec![]);
    let g = place(0, vec![PlaceElem::Downcast(0)]);
    let h = place(0, vec![PlaceElem::Deref(Pointer::SharedRef)]);
    let ascending = [&a, &h, &d, &b, &e, &c, &g, &f];
    for i in 0..ascending.len() {
        for j in 0..ascending.len() {
            assert_eq!(is_place_not_behind(ascending[i], ascending[j]), i <= j);
        }
    }
}

#[test]
fn a_tree_that_names_an_unknown_point_is_not_well_formed() {
    assert!(branch_tree().is_well_formed(7));
    assert!(!branch_tree().is_well_formed(6));
    assert!(!branch_tree().is_well_formed(5));
    assert!(let_tree(None).is_well_formed(7));
    assert!(node(NodeKind::Other, sp(0, 1), None, vec![]).is_well_formed(0));
    let deep = node(
        NodeKind::Other,
        sp(0, 9),
        None,
        vec![node(NodeKind::Stmt, sp(0, 9), None, vec![node(NodeKind::Other, sp(1, 2), Some((0, 3)), vec![])])],
    );
    assert!(deep.is_well_formed(4));
    assert!(!deep.is_well_formed(3));
}
