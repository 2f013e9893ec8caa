//! Relations of the Datalog engine: sorted lists of distinct tuples.
//!
//! Nothing in this file is proved. Each function states what the engine does,
//! as its source shows it, and the analysis is verified against these
//! statements.

use crate::facts::{is_exclusive, is_mutable_loan, LoanData};
use datafrog::{Relation, RelationLeaper, ValueFilter};
use vstd::prelude::*;

verus! {

/// `datafrog::Relation`: a fixed set of tuples, which the engine keeps as a
/// sorted list. Nothing of its inside is visible here; what it holds is
/// named by `pairs_of` and `triples_of`.
#[verifier::external_type_specification]
#[verifier::external_body]
#[verifier::reject_recursive_types(Tuple)]
pub struct ExRelation<Tuple: Ord>(Relation<Tuple>);

/// The pairs that a relation holds, in the order in which it stores them.
pub uninterp spec fn pairs_of(r: Relation<(usize, usize)>) -> Seq<(usize, usize)>;

/// The triples that a relation holds, in the order in which it stores them.
pub uninterp spec fn triples_of(r: Relation<(usize, usize, usize)>) -> Seq<(usize, usize, usize)>;

/// The order of pairs: by the first component, then by the second.
pub open spec fn pair_before(a: (usize, usize), b: (usize, usize)) -> bool {
    a.0 < b.0 || (a.0 == b.0 && a.1 < b.1)
}

/// The order of triples: by the first component, then the second, then the
/// third.
pub open spec fn triple_before(a: (usize, usize, usize), b: (usize, usize, usize)) -> bool {
    a.0 < b.0 || (a.0 == b.0 && (a.1 < b.1 || (a.1 == b.1 && a.2 < b.2)))
}

/// Each pair stands before the pairs behind it.
pub open spec fn pairs_ascend(s: Seq<(usize, usize)>) -> bool {
    forall|i: int, j: int| 0 <= i < j < s.len() ==> pair_before(#[trigger] s[i], #[trigger] s[j])
}

/// Each triple stands before the triples behind it.
pub open spec fn triples_ascend(s: Seq<(usize, usize, usize)>) -> bool {
    forall|i: int, j: int| 0 <= i < j < s.len() ==> triple_before(#[trigger] s[i], #[trigger] s[j])
}

/// The first relation holds the key of a triple with its second component,
/// the second relation the key with the third.
pub open spec fn joins(
    left: Seq<(usize, usize)>,
    right: Seq<(usize, usize)>,
    t: (usize, usize, usize),
) -> bool {
    left.contains((t.0, t.1)) && right.contains((t.0, t.2))
}

/// `Relation::from_vec`: the relation of the pairs of a list. The engine
/// sorts the list and drops repeated pairs, so the relation holds the pairs
/// of the list, each once, in ascending order.
#[verifier::external_body]
pub(crate) fn relation_from_pairs(pairs: Vec<(usize, usize)>) -> (r: Relation<(usize, usize)>)
    ensures
        pairs_ascend(pairs_of(r)),
        forall|p: (usize, usize)| #[trigger] pairs_of(r).contains(p) <==> pairs@.contains(p),
{
    Relation::from_vec(pairs)
}

/// `Relation::from_join`: the join of two relations on the first component.
/// For inputs in ascending order the engine pairs every two entries with the
/// same key; the result holds the triple `(key, v1, v2)` exactly where the
/// first input holds `(key, v1)` and the second `(key, v2)`, each once, in
/// ascending order.
#[verifier::external_body]
pub(crate) fn relation_join(
    left: &Relation<(usize, usize)>,
    right: &Relation<(usize, usize)>,
) -> (r: Relation<(usize, usize, usize)>)
    requires
        pairs_ascend(pairs_of(*left)),
        pairs_ascend(pairs_of(*right)),
    ensures
        triples_ascend(triples_of(r)),
        forall|t: (usize, usize, usize)|
            (#[trigger] triples_of(r).contains(t)) <==> joins(pairs_of(*left), pairs_of(*right), t),
{
    Relation::from_join(left, right, |&k, &v1, &v2| (k, v1, v2))
}

/// `Relation::from_leapjoin` with an `extend_with` leaper and a
/// `ValueFilter`: the join of two relations on the first component, kept to
/// the keys that are exclusive loans of `loans`. The result holds
/// `(key, v1, v2)` exactly where the first input holds `(key, v1)`, the
/// second `(key, v2)`, and the key is such a loan; each once, in ascending
/// order.
#[verifier::external_body]
pub(crate) fn relation_join_exclusive(
    left: &Relation<(usize, usize)>,
    right: &Relation<(usize, usize)>,
    loans: &Vec<LoanData>,
) -> (r: Relation<(usize, usize, usize)>)
    requires
        pairs_ascend(pairs_of(*left)),
        pairs_ascend(pairs_of(*right)),
    ensures
        triples_ascend(triples_of(r)),
        forall|t: (usize, usize, usize)|
            (#[trigger] triples_of(r).contains(t)) <==> (joins(pairs_of(*left), pairs_of(*right), t)
                && is_exclusive(loans@, t.0)),
{
    Relation::from_leapjoin(
        left,
        (right.extend_with(|&(k, _)| k), ValueFilter::from(|&(k, _), _| is_mutable_loan(loans, k))),
        |&(k, v1), &v2| (k, v1, v2),
    )
}

/// The field `elements` of a relation: its triples as a list, in the order
/// in which the relation stores them.
#[verifier::external_body]
pub(crate) fn relation_triples(r: &Relation<(usize, usize, usize)>) -> (v: Vec<
    (usize, usize, usize),
>)
    ensures
        v@ == triples_of(*r),
{
    r.elements.clone()
}

} // verus!
