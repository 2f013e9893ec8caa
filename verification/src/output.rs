//! The derived permission facts: which paths can never be written or
//! dropped, and at which points a loan or a move takes a capability away.

use crate::context::PermissionsCtxt;
use crate::facts::{holds_first, relates, InputFacts};
use crate::place::{
    goes_through_pointer, goes_through_shared_ref, Loan, Path, PathTable, PlaceData, Point,
};
use crate::relation::{
    joins, pairs_of, relation_from_pairs, relation_join, relation_join_exclusive, relation_triples,
    triple_before, triples_ascend,
};
use std::collections::{HashMap, HashSet};
use vstd::prelude::*;

verus! {

broadcast use vstd::std_specs::hash::group_hash_axioms;

/// What the analysis derives for one function body.
///
/// `never_write` and `never_drop` hold of a path at every point. The other
/// relations are kept by point: `cannot_read`, `cannot_write` and
/// `cannot_drop` give, for a path that a live loan refines, one such loan;
/// `path_maybe_uninitialized_on_entry` gives the paths that may have been
/// moved out of when control reaches the point.
#[derive(Debug)]
pub struct Output {
    pub never_write: HashSet<Path>,
    pub never_drop: HashSet<Path>,
    pub cannot_read: HashMap<Point, HashMap<Path, Loan>>,
    pub cannot_write: HashMap<Point, HashMap<Path, Loan>>,
    pub cannot_drop: HashMap<Point, HashMap<Path, Loan>>,
    pub path_maybe_uninitialized_on_entry: HashMap<Point, HashSet<Path>>,
}

/// The loan that a table records for a path at a point.
pub open spec fn refiner_in(table: Map<Point, HashMap<Path, Loan>>, path: Path, point: Point) -> Option<
    Loan,
> {
    if table.contains_key(point) && table[point]@.contains_key(path) {
        Some(table[point]@[path])
    } else {
        None
    }
}

/// Whether a table records a path at a point.
pub open spec fn member_in(table: Map<Point, HashSet<Path>>, point: Point, path: Path) -> bool {
    table.contains_key(point) && table[point]@.contains(path)
}

impl Output {
    /// The loan recorded as taking away the read capability.
    pub open spec fn read_refiner(&self, path: Path, point: Point) -> Option<Loan> {
        refiner_in(self.cannot_read@, path, point)
    }

    /// The loan recorded as taking away the write capability.
    pub open spec fn write_refiner(&self, path: Path, point: Point) -> Option<Loan> {
        refiner_in(self.cannot_write@, path, point)
    }

    /// The loan recorded as taking away the drop capability.
    pub open spec fn drop_refiner(&self, path: Path, point: Point) -> Option<Loan> {
        refiner_in(self.cannot_drop@, path, point)
    }

    /// The path may be uninitialized when control reaches the point.
    pub open spec fn moved(&self, path: Path, point: Point) -> bool {
        member_in(self.path_maybe_uninitialized_on_entry@, point, path)
    }

    /// Nothing is derived yet.
    pub open spec fn is_empty(&self) -> bool {
        &&& self.never_write@ == Set::<Path>::empty()
        &&& self.never_drop@ == Set::<Path>::empty()
        &&& self.cannot_read@ == Map::<Point, HashMap<Path, Loan>>::empty()
        &&& self.cannot_write@ == Map::<Point, HashMap<Path, Loan>>::empty()
        &&& self.cannot_drop@ == Map::<Point, HashMap<Path, Loan>>::empty()
        &&& self.path_maybe_uninitialized_on_entry@ == Map::<Point, HashSet<Path>>::empty()
    }
}

impl Default for Output {
    fn default() -> (out: Output)
        ensures
            out.is_empty(),
    {
        Output {
            never_write: HashSet::new(),
            never_drop: HashSet::new(),
            cannot_read: HashMap::new(),
            cannot_write: HashMap::new(),
            cannot_drop: HashMap::new(),
            path_maybe_uninitialized_on_entry: HashMap::new(),
        }
    }
}

/// A path that no point can write: a binding declared read-only, taken
/// directly, or anything behind a shared reference.
pub open spec fn never_write(data: PlaceData) -> bool {
    (!goes_through_pointer(data.place.projection@) && data.declared_readonly)
        || goes_through_shared_ref(data.place.projection@)
}

/// A path that no point can drop: anything behind a pointer.
pub open spec fn never_drop(data: PlaceData) -> bool {
    goes_through_pointer(data.place.projection@)
}

pub fn is_never_write(data: &PlaceData) -> (r: bool)
    ensures
        r == never_write(*data),
{
    (!data.place.is_indirect() && data.declared_readonly) || data.place.behind_shared_ref()
}

pub fn is_never_drop(data: &PlaceData) -> (r: bool)
    ensures
        r == never_drop(*data),
{
    data.place.is_indirect()
}

/// The conflict relation: the loan is issued, the path is one of the
/// `n_paths` candidates, and using the path would touch what the loan
/// borrows.
pub open spec fn loan_conflicts_with(facts: &InputFacts, n_paths: int, loan: Loan, path: Path) -> bool {
    facts.issued(loan) && path < n_paths && facts.conflict(loan, path)
}

/// The loan takes a capability of the path away at the point: it conflicts
/// with the path and is live there. For the read capability only an
/// exclusive loan counts.
pub open spec fn refines(
    facts: &InputFacts,
    n_paths: int,
    exclusive_only: bool,
    loan: Loan,
    path: Path,
    point: Point,
) -> bool {
    &&& loan_conflicts_with(facts, n_paths, loan, path)
    &&& facts.loan_live(loan, point)
    &&& exclusive_only ==> facts.exclusive(loan)
}

/// `found` names the greatest loan that refines the path at the point, or
/// nothing where no loan does.
pub open spec fn greatest_refiner(
    facts: &InputFacts,
    n_paths: int,
    exclusive_only: bool,
    path: Path,
    point: Point,
    found: Option<Loan>,
) -> bool {
    match found {
        Some(loan) => refines(facts, n_paths, exclusive_only, loan, path, point) && forall|
            other: Loan,
        | #[trigger]
            refines(facts, n_paths, exclusive_only, other, path, point) ==> other <= loan,
        None => forall|other: Loan| !#[trigger] refines(facts, n_paths, exclusive_only, other, path, point),
    }
}

/// The path may be uninitialized on entry to the point: it may be so on exit
/// from a point that has an edge to this one.
pub open spec fn uninitialized_on_entry(facts: &InputFacts, path: Path, point: Point) -> bool {
    exists|from: Point| #[trigger] facts.uninitialized_on_exit(from, path) && facts.edge(from, point)
}

/// The pairs of the conflict relation.
fn conflict_pairs(facts: &InputFacts, n_paths: usize) -> (pairs: Vec<(Loan, Path)>)
    ensures
        forall|p: (Loan, Path)| #[trigger]
            pairs@.contains(p) <==> loan_conflicts_with(facts, n_paths as int, p.0, p.1),
{
    let mut pairs: Vec<(Loan, Path)> = Vec::new();
    let mut i: usize = 0;
    while i < facts.loan_conflicts.len()
        invariant
            i <= facts.loan_conflicts.len(),
            forall|p: (Loan, Path)| #[trigger]
                pairs@.contains(p) <==> facts.loan_conflicts@.take(i as int).contains(p)
                    && loan_conflicts_with(facts, n_paths as int, p.0, p.1),
        decreases facts.loan_conflicts.len() - i,
    {
        let pair = facts.loan_conflicts[i];
        let ghost before = pairs@;
        let keep = pair.1 < n_paths && holds_first(&facts.loan_issued_at, pair.0);
        if keep {
            pairs.push(pair);
        }
        proof {
            let taken = facts.loan_conflicts@.take(i as int);
            let next = facts.loan_conflicts@.take(i + 1);
            assert(next == taken.push(pair));
            assert(facts.loan_conflicts@.contains(pair)) by {
                assert(facts.loan_conflicts@[i as int] == pair);
            }
            assert forall|p: (Loan, Path)| #[trigger]
                pairs@.contains(p) <==> next.contains(p) && loan_conflicts_with(
                    facts,
                    n_paths as int,
                    p.0,
                    p.1,
                ) by {
                lemma_push_contains(taken, pair, p);
                if keep {
                    lemma_push_contains(before, pair, p);
                }
            }
        }
        i += 1;
    }
    assert(facts.loan_conflicts@.take(i as int) == facts.loan_conflicts@);
    pairs
}

/// A list with one more value holds what it held and that value.
pub proof fn lemma_push_contains<T>(s: Seq<T>, last: T, x: T)
    ensures
        s.push(last).contains(x) <==> s.contains(x) || x == last,
{
    if s.contains(x) {
        let i = choose|i: int| 0 <= i < s.len() && s[i] == x;
        assert(s.push(last)[i] == x);
    }
    if x == last {
        assert(s.push(last)[s.len() as int] == x);
    }
    if s.push(last).contains(x) {
        let i = choose|i: int| 0 <= i < s.push(last).len() && s.push(last)[i] == x;
        if i < s.len() {
            assert(s[i] == x);
        }
    }
}

/// The pairs of a keyed list of sets: each key with each value of its set,
/// or, for `value_first`, each value with its key.
fn flatten(table: &Vec<(usize, Vec<usize>)>, value_first: bool) -> (pairs: Vec<(usize, usize)>)
    ensures
        forall|p: (usize, usize)| #[trigger]
            pairs@.contains(p) <==> if value_first {
                relates(table@, p.1, p.0)
            } else {
                relates(table@, p.0, p.1)
            },
{
    let mut pairs: Vec<(usize, usize)> = Vec::new();
    let mut i: usize = 0;
    while i < table.len()
        invariant
            i <= table.len(),
            forall|p: (usize, usize)| #[trigger]
                pairs@.contains(p) <==> if value_first {
                    relates(table@.take(i as int), p.1, p.0)
                } else {
                    relates(table@.take(i as int), p.0, p.1)
                },
        decreases table.len() - i,
    {
        let key = table[i].0;
        let ghost outer = pairs@;
        let mut j: usize = 0;
        while j < table[i].1.len()
            invariant
                i < table.len(),
                key == table@[i as int].0,
                j <= table@[i as int].1@.len(),
                forall|p: (usize, usize)| #[trigger]
                    pairs@.contains(p) <==> outer.contains(p) || (exists|b: int|
                        0 <= b < j && p == if value_first {
                            (#[trigger] table@[i as int].1@[b], key)
                        } else {
                            (key, table@[i as int].1@[b])
                        }),
            decreases table@[i as int].1@.len() - j,
        {
            let value = table[i].1[j];
            let pair = if value_first {
                (value, key)
            } else {
                (key, value)
            };
            let ghost before = pairs@;
            pairs.push(pair);
            proof {
                assert forall|p: (usize, usize)| #[trigger]
                    pairs@.contains(p) <==> outer.contains(p) || (exists|b: int|
                        0 <= b < j + 1 && p == if value_first {
                            (#[trigger] table@[i as int].1@[b], key)
                        } else {
                            (key, table@[i as int].1@[b])
                        }) by {
                    lemma_push_contains(before, pair, p);
                    if p == pair {
                        assert(table@[i as int].1@[j as int] == value);
                    }
                }
            }
            j += 1;
        }
        proof {
            let taken = table@.take(i as int);
            let next = table@.take(i + 1);
            assert(next == taken.push(table@[i as int]));
            assert forall|p: (usize, usize)| #[trigger]
                pairs@.contains(p) <==> if value_first {
                    relates(next, p.1, p.0)
                } else {
                    relates(next, p.0, p.1)
                } by {
                let k = if value_first { p.1 } else { p.0 };
                let v = if value_first { p.0 } else { p.1 };
                lemma_relates_push(taken, table@[i as int], k, v);
                if k == key && table@[i as int].1@.contains(v) {
                    let b = choose|b: int| 0 <= b < table@[i as int].1@.len() && table@[i as int].1@[b] == v;
                    assert(table@[i as int].1@[b] == v);
                }
            }
        }
        i += 1;
    }
    assert(table@.take(i as int) == table@);
    pairs
}

/// A keyed list with one more entry relates what it related, and the new
/// key to the values of its set.
pub proof fn lemma_relates_push(
    table: Seq<(usize, Vec<usize>)>,
    last: (usize, Vec<usize>),
    key: usize,
    value: usize,
)
    ensures
        relates(table.push(last), key, value) <==> relates(table, key, value) || (last.0 == key
            && last.1@.contains(value)),
{
    let more = table.push(last);
    if relates(table, key, value) {
        let (i, j) = choose|i: int, j: int|
            0 <= i < table.len() && 0 <= j < table[i].1@.len() && (#[trigger] table[i]).0 == key
                && #[trigger] table[i].1@[j] == value;
        assert(more[i] == table[i]);
        assert(more[i].0 == key && more[i].1@[j] == value);
    }
    if last.0 == key && last.1@.contains(value) {
        let j = choose|j: int| 0 <= j < last.1@.len() && last.1@[j] == value;
        assert(more[table.len() as int] == last);
        assert(more[table.len() as int].0 == key && more[table.len() as int].1@[j] == value);
    }
    if relates(more, key, value) {
        let (i, j) = choose|i: int, j: int|
            0 <= i < more.len() && 0 <= j < more[i].1@.len() && (#[trigger] more[i]).0 == key
                && #[trigger] more[i].1@[j] == value;
        if i < table.len() {
            assert(table[i] == more[i]);
            assert(table[i].0 == key && table[i].1@[j] == value);
        } else {
            assert(last.1@[j] == value);
        }
    }
}

/// The loan of the last triple of the list that names the path and the
/// point.
pub open spec fn last_loan(triples: Seq<(Loan, Path, Point)>, path: Path, point: Point) -> Option<
    Loan,
>
    decreases triples.len(),
{
    if triples.len() == 0 {
        None
    } else if triples.last().1 == path && triples.last().2 == point {
        Some(triples.last().0)
    } else {
        last_loan(triples.drop_last(), path, point)
    }
}

/// In an ascending list the last triple for a path and a point holds the
/// greatest loan that the list gives them.
pub proof fn lemma_last_is_greatest(triples: Seq<(Loan, Path, Point)>, path: Path, point: Point)
    requires
        triples_ascend(triples),
    ensures
        match last_loan(triples, path, point) {
            Some(loan) => triples.contains((loan, path, point)) && forall|other: Loan| #[trigger]
                triples.contains((other, path, point)) ==> other <= loan,
            None => forall|other: Loan| !#[trigger] triples.contains((other, path, point)),
        },
    decreases triples.len(),
{
    if triples.len() == 0 {
    } else {
        let last = triples.last();
        let front = triples.drop_last();
        assert(triples == front.push(last));
        assert forall|i: int, j: int| 0 <= i < j < front.len() implies triple_before(
            #[trigger] front[i],
            #[trigger] front[j],
        ) by {
            assert(front[i] == triples[i] && front[j] == triples[j]);
        }
        lemma_last_is_greatest(front, path, point);
        assert forall|other: Loan|
            triples.contains((other, path, point)) <==> front.contains((other, path, point)) || (
            other, path, point) == last by {
            lemma_push_contains(front, last, (other, path, point));
        }
        if last.1 == path && last.2 == point {
            assert forall|other: Loan| #[trigger]
                triples.contains((other, path, point)) implies other <= last.0 by {
                if front.contains((other, path, point)) {
                    let k = choose|k: int| 0 <= k < front.len() && front[k] == (other, path, point);
                    assert(triple_before(triples[k], triples[triples.len() - 1]));
                }
            }
        }
    }
}

/// The table of the loans that refine: for each point and path of the
/// triples `(loan, path, point)`, the loan of the last such triple.
fn refiner_table(triples: &Vec<(Loan, Path, Point)>) -> (table: HashMap<Point, HashMap<Path, Loan>>)
    ensures
        forall|path: Path, point: Point| #[trigger]
            refiner_in(table@, path, point) == last_loan(triples@, path, point),
{
    let mut table: HashMap<Point, HashMap<Path, Loan>> = HashMap::new();
    let mut i: usize = 0;
    while i < triples.len()
        invariant
            i <= triples.len(),
            forall|path: Path, point: Point| #[trigger]
                refiner_in(table@, path, point) == last_loan(triples@.take(i as int), path, point),
        decreases triples.len() - i,
    {
        let (loan, path, point) = triples[i];
        let ghost before = table@;
        let mut inner: HashMap<Path, Loan> = match table.remove(&point) {
            Some(found) => found,
            None => HashMap::new(),
        };
        let ghost inner_before = inner@;
        inner.insert(path, loan);
        table.insert(point, inner);
        proof {
            let next = triples@.take(i + 1);
            assert(next.drop_last() == triples@.take(i as int));
            assert(next.last() == (loan, path, point));
            assert forall|a: Path, b: Point| #[trigger]
                refiner_in(table@, a, b) == last_loan(next, a, b) by {
                assert(refiner_in(before, a, b) == last_loan(triples@.take(i as int), a, b));
                if b == point {
                    assert(table@[b]@ == inner_before.insert(path, loan));
                    if before.contains_key(point) {
                        assert(inner_before == before[point]@);
                    } else {
                        assert(inner_before == Map::<Path, Loan>::empty());
                    }
                } else {
                    assert(table@.contains_key(b) == before.contains_key(b));
                    if before.contains_key(b) {
                        assert(table@[b] == before[b]);
                    }
                }
            }
        }
        i += 1;
    }
    assert(triples@.take(i as int) == triples@);
    table
}

/// Some triple of the list ends in the two values.
pub open spec fn reaches(triples: Seq<(usize, usize, usize)>, path: Path, point: Point) -> bool {
    exists|i: int|
        0 <= i < triples.len() && (#[trigger] triples[i]).1 == path && triples[i].2 == point
}

/// The table of the paths that may be uninitialized: for each triple
/// `(from, path, to)` the path, under the point `to`.
fn moved_table(triples: &Vec<(Point, Path, Point)>) -> (table: HashMap<Point, HashSet<Path>>)
    ensures
        forall|path: Path, point: Point| #[trigger]
            member_in(table@, point, path) <==> reaches(triples@, path, point),
{
    let mut table: HashMap<Point, HashSet<Path>> = HashMap::new();
    let mut i: usize = 0;
    while i < triples.len()
        invariant
            i <= triples.len(),
            forall|path: Path, point: Point| #[trigger]
                member_in(table@, point, path) <==> reaches(triples@.take(i as int), path, point),
        decreases triples.len() - i,
    {
        let (_from, path, point) = triples[i];
        let ghost before = table@;
        let mut inner: HashSet<Path> = match table.remove(&point) {
            Some(found) => found,
            None => HashSet::new(),
        };
        let ghost inner_before = inner@;
        inner.insert(path);
        table.insert(point, inner);
        proof {
            let taken = triples@.take(i as int);
            let next = triples@.take(i + 1);
            assert(next == taken.push(triples@[i as int]));
            assert forall|a: Path, b: Point| #[trigger]
                member_in(table@, b, a) <==> reaches(next, a, b) by {
                assert(member_in(before, b, a) <==> reaches(taken, a, b));
                if reaches(taken, a, b) {
                    let k = choose|k: int|
                        0 <= k < taken.len() && (#[trigger] taken[k]).1 == a && taken[k].2 == b;
                    assert(next[k] == taken[k]);
                }
                if a == path && b == point {
                    assert(next[i as int].1 == a && next[i as int].2 == b);
                }
                if reaches(next, a, b) {
                    let k = choose|k: int|
                        0 <= k < next.len() && (#[trigger] next[k]).1 == a && next[k].2 == b;
                    if k < i {
                        assert(taken[k] == next[k]);
                    }
                }
                if b == point {
                    assert(table@[b]@ == inner_before.insert(path));
                    if before.contains_key(point) {
                        assert(inner_before == before[point]@);
                    } else {
                        assert(inner_before == Set::<Path>::empty());
                    }
                } else {
                    assert(table@.contains_key(b) == before.contains_key(b));
                    if before.contains_key(b) {
                        assert(table@[b] == before[b]);
                    }
                }
            }
        }
        i += 1;
    }
    assert(triples@.take(i as int) == triples@);
    table
}

/// The paths below `n` of a table that `test` holds of.
fn structural_set(ctxt: &PermissionsCtxt, write: bool) -> (set: HashSet<Path>)
    ensures
        forall|path: Path| #[trigger]
            set@.contains(path) <==> path < ctxt.places@.len() && if write {
                never_write(ctxt.places@[path as int])
            } else {
                never_drop(ctxt.places@[path as int])
            },
{
    let mut set: HashSet<Path> = HashSet::new();
    let n = ctxt.places.len();
    let mut path: usize = 0;
    while path < n
        invariant
            path <= n,
            n == ctxt.places@.len(),
            forall|p: Path| #[trigger]
                set@.contains(p) <==> p < path && if write {
                    never_write(ctxt.places@[p as int])
                } else {
                    never_drop(ctxt.places@[p as int])
                },
        decreases n - path,
    {
        let data = ctxt.places.get(path);
        let structural = if write {
            is_never_write(data)
        } else {
            is_never_drop(data)
        };
        if structural {
            set.insert(path);
        }
        path += 1;
    }
    set
}

/// What the join of the conflict relation with the liveness relation gives
/// for a path and a point is the greatest loan that refines the path there.
proof fn lemma_joined_refiners(
    facts: &InputFacts,
    n_paths: int,
    exclusive_only: bool,
    triples: Seq<(Loan, Path, Point)>,
    conflicts: Seq<(Loan, Path)>,
    live: Seq<(Loan, Point)>,
    path: Path,
    point: Point,
)
    requires
        triples_ascend(triples),
        forall|t: (usize, usize, usize)| #[trigger]
            triples.contains(t) <==> joins(conflicts, live, t) && (exclusive_only
                ==> facts.exclusive(t.0)),
        forall|p: (Loan, Path)| #[trigger]
            conflicts.contains(p) <==> loan_conflicts_with(facts, n_paths, p.0, p.1),
        forall|p: (Loan, Point)| #[trigger] live.contains(p) <==> relates(facts.loan_live_at@, p.1, p.0),
    ensures
        greatest_refiner(facts, n_paths, exclusive_only, path, point, last_loan(triples, path, point)),
{
    lemma_last_is_greatest(triples, path, point);
    assert forall|loan: Loan|
        refines(facts, n_paths, exclusive_only, loan, path, point) == triples.contains(
            (loan, path, point),
        ) by {
        assert(conflicts.contains((loan, path)) <==> loan_conflicts_with(facts, n_paths, loan, path));
        assert(live.contains((loan, point)) <==> relates(facts.loan_live_at@, point, loan));
        assert(triples.contains((loan, path, point)) <==> joins(conflicts, live, (loan, path, point))
            && (exclusive_only ==> facts.exclusive(loan)));
    }
    match last_loan(triples, path, point) {
        Some(greatest) => {
            assert(triples.contains((greatest, path, point)));
            assert forall|other: Loan| #[trigger]
                refines(facts, n_paths, exclusive_only, other, path, point) implies other
                <= greatest by {
                assert(triples.contains((other, path, point)));
            }
        },
        None => {
            assert forall|other: Loan| !#[trigger] refines(
                facts,
                n_paths,
                exclusive_only,
                other,
                path,
                point,
            ) by {
                assert(!triples.contains((other, path, point)));
            }
        },
    }
}

/// Derives the permission facts of a function body from the facts given:
/// the structural facts from the interned places, the refinements from the
/// join of the conflict relation with loan liveness, and the moves from the
/// join of initialization on exit with the control-flow edges. What the
/// context held as derived before is replaced.
pub fn derive_permission_facts(ctxt: &mut PermissionsCtxt)
    ensures
        final(ctxt).places == old(ctxt).places,
        final(ctxt).facts == old(ctxt).facts,
        final(ctxt).derived(),
{
    let n_paths = ctxt.places.len();

    let conflicts = conflict_pairs(&ctxt.facts, n_paths);
    let ghost conflict_seq = conflicts@;
    let loan_conflicts_with = relation_from_pairs(conflicts);

    let live = flatten(&ctxt.facts.loan_live_at, true);
    let ghost live_seq = live@;
    let loan_live_at = relation_from_pairs(live);

    let cannot_read = relation_join_exclusive(&loan_conflicts_with, &loan_live_at, &ctxt.facts.loans);
    let cannot_write = relation_join(&loan_conflicts_with, &loan_live_at);
    let cannot_drop = relation_join(&loan_conflicts_with, &loan_live_at);

    let never_write = structural_set(ctxt, true);
    let never_drop = structural_set(ctxt, false);

    let edges = clone_pairs(&ctxt.facts.cfg_edge);
    let cfg_edge = relation_from_pairs(edges);
    let exits = flatten(&ctxt.facts.path_maybe_uninitialized_on_exit, false);
    let ghost exit_seq = exits@;
    let path_maybe_uninitialized_on_exit = relation_from_pairs(exits);
    let path_maybe_uninitialized_on_entry = relation_join(
        &path_maybe_uninitialized_on_exit,
        &cfg_edge,
    );

    let moved_triples = relation_triples(&path_maybe_uninitialized_on_entry);
    let moved = moved_table(&moved_triples);

    let read_triples = relation_triples(&cannot_read);
    let write_triples = relation_triples(&cannot_write);
    let drop_triples = relation_triples(&cannot_drop);
    let read_table = refiner_table(&read_triples);
    let write_table = refiner_table(&write_triples);
    let drop_table = refiner_table(&drop_triples);

    proof {
        let facts = &ctxt.facts;
        let n = n_paths as int;
        let conflict_rel = pairs_of(loan_conflicts_with);
        let live_rel = pairs_of(loan_live_at);
        assert forall|path: Path, point: Point|
            greatest_refiner(facts, n, true, path, point, #[trigger] refiner_in(read_table@, path, point)) by {
            lemma_joined_refiners(facts, n, true, read_triples@, conflict_rel, live_rel, path, point);
        }
        assert forall|path: Path, point: Point|
            greatest_refiner(
                facts,
                n,
                false,
                path,
                point,
                #[trigger] refiner_in(write_table@, path, point),
            ) by {
            lemma_joined_refiners(facts, n, false, write_triples@, conflict_rel, live_rel, path, point);
        }
        assert forall|path: Path, point: Point|
            greatest_refiner(
                facts,
                n,
                false,
                path,
                point,
                #[trigger] refiner_in(drop_table@, path, point),
            ) by {
            lemma_joined_refiners(facts, n, false, drop_triples@, conflict_rel, live_rel, path, point);
        }
        let exit_rel = pairs_of(path_maybe_uninitialized_on_exit);
        let edge_rel = pairs_of(cfg_edge);
        assert forall|path: Path, point: Point| #[trigger]
            member_in(moved@, point, path) <==> uninitialized_on_entry(facts, path, point) by {
            if reaches(moved_triples@, path, point) {
                let k = choose|k: int|
                    0 <= k < moved_triples@.len() && (#[trigger] moved_triples@[k]).1 == path
                        && moved_triples@[k].2 == point;
                let t = moved_triples@[k];
                assert(moved_triples@.contains(t));
                assert(exit_rel.contains((t.0, path)) && edge_rel.contains((t.0, point)));
                assert(facts.uninitialized_on_exit(t.0, path) && facts.edge(t.0, point));
            }
            if uninitialized_on_entry(facts, path, point) {
                let from = choose|from: Point| #[trigger]
                    facts.uninitialized_on_exit(from, path) && facts.edge(from, point);
                assert(exit_rel.contains((from, path)) && edge_rel.contains((from, point)));
                assert(moved_triples@.contains((from, path, point)));
                let k = choose|k: int|
                    0 <= k < moved_triples@.len() && moved_triples@[k] == (from, path, point);
                assert(moved_triples@[k].1 == path && moved_triples@[k].2 == point);
            }
        }
    }

    ctxt.permissions_output.never_write = never_write;
    ctxt.permissions_output.never_drop = never_drop;
    ctxt.permissions_output.path_maybe_uninitialized_on_entry = moved;
    ctxt.permissions_output.cannot_read = read_table;
    ctxt.permissions_output.cannot_write = write_table;
    ctxt.permissions_output.cannot_drop = drop_table;
}

/// A copy of a list of pairs.
fn clone_pairs(pairs: &Vec<(usize, usize)>) -> (copy: Vec<(usize, usize)>)
    ensures
        copy@ == pairs@,
{
    let mut copy: Vec<(usize, usize)> = Vec::new();
    let mut i: usize = 0;
    while i < pairs.len()
        invariant
            i <= pairs.len(),
            copy@ == pairs@.take(i as int),
        decreases pairs.len() - i,
    {
        copy.push(pairs[i]);
        i += 1;
    }
    assert(pairs@.take(pairs.len() as int) == pairs@);
    copy
}

/// The analysis of one function body: a context that holds the interned
/// places and the facts given, with the permission facts derived from them.
pub fn compute(places: PathTable, facts: InputFacts) -> (ctxt: PermissionsCtxt)
    requires
        places.wf(),
        facts.wf(),
    ensures
        ctxt.places == places,
        ctxt.facts == facts,
        ctxt.wf(),
{
    let mut ctxt = PermissionsCtxt { places, facts, permissions_output: Output::default() };
    derive_permission_facts(&mut ctxt);
    ctxt
}

/// The analysis of one function body, for facts of which nothing is known:
/// none where the facts name a loan or a point that they do not describe.
pub fn compute_permissions(places: PathTable, facts: InputFacts) -> (found: Option<PermissionsCtxt>)
    requires
        places.wf(),
    ensures
        match found {
            Some(ctxt) => facts.wf() && ctxt.places == places && ctxt.facts == facts && ctxt.wf(),
            None => !facts.wf(),
        },
{
    if facts.is_well_formed() {
        Some(compute(places, facts))
    } else {
        None
    }
}

} // verus!
