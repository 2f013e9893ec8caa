//! The analysis context of one function body.

use crate::facts::InputFacts;
use crate::output::{
    greatest_refiner, never_drop, never_write, refines, uninitialized_on_entry, Output,
};
use crate::place::{Loan, Path, PathTable, Point};
use vstd::prelude::*;

verus! {

/// Everything that is known of one function body: its interned places, the
/// facts that the analysis is given, and the facts that it derives.
pub struct PermissionsCtxt {
    pub places: PathTable,
    pub facts: InputFacts,
    pub permissions_output: Output,
}

impl PermissionsCtxt {
    /// The context is complete: no place has two paths, the facts are well
    /// formed, and the derived facts are the ones that they imply.
    pub open spec fn wf(&self) -> bool {
        &&& self.places.wf()
        &&& self.facts.wf()
        &&& self.derived()
    }

    /// The derived facts are the ones that the given facts imply.
    ///
    /// The structural facts hold exactly of the interned paths that the
    /// rules name. At each point the tables name, for a path that a live and
    /// conflicting loan refines, the greatest such loan, and no loan for
    /// another path; only an exclusive loan refines the read capability. A
    /// path counts as moved on entry to a point exactly where it may be
    /// uninitialized on exit from a predecessor.
    pub open spec fn derived(&self) -> bool {
        let n = self.places@.len() as int;
        let out = &self.permissions_output;
        &&& forall|path: Path| #[trigger]
            out.never_write@.contains(path) <==> path < n && never_write(self.places@[path as int])
        &&& forall|path: Path| #[trigger]
            out.never_drop@.contains(path) <==> path < n && never_drop(self.places@[path as int])
        &&& forall|path: Path, point: Point|
            greatest_refiner(&self.facts, n, true, path, point, #[trigger] out.read_refiner(path, point))
        &&& forall|path: Path, point: Point|
            greatest_refiner(
                &self.facts,
                n,
                false,
                path,
                point,
                #[trigger] out.write_refiner(path, point),
            )
        &&& forall|path: Path, point: Point|
            greatest_refiner(&self.facts, n, false, path, point, #[trigger] out.drop_refiner(path, point))
        &&& forall|path: Path, point: Point| #[trigger]
            out.moved(path, point) <==> uninitialized_on_entry(&self.facts, path, point)
    }
}

/// In a complete context a loan that a table of refinements names is one
/// of the loans that the facts describe.
pub proof fn lemma_refiners_known(ctxt: &PermissionsCtxt, path: Path, point: Point)
    requires
        ctxt.facts.wf(),
        ctxt.derived(),
    ensures
        ctxt.permissions_output.read_refiner(path, point) matches Some(loan) ==> loan
            < ctxt.facts.loans@.len(),
        ctxt.permissions_output.write_refiner(path, point) matches Some(loan) ==> loan
            < ctxt.facts.loans@.len(),
        ctxt.permissions_output.drop_refiner(path, point) matches Some(loan) ==> loan
            < ctxt.facts.loans@.len(),
{
    let out = &ctxt.permissions_output;
    let n = ctxt.places@.len() as int;
    if let Some(loan) = out.read_refiner(path, point) {
        assert(refines(&ctxt.facts, n, true, loan, path, point));
        lemma_issued_known(ctxt, loan);
    }
    if let Some(loan) = out.write_refiner(path, point) {
        assert(refines(&ctxt.facts, n, false, loan, path, point));
        lemma_issued_known(ctxt, loan);
    }
    if let Some(loan) = out.drop_refiner(path, point) {
        assert(refines(&ctxt.facts, n, false, loan, path, point));
        lemma_issued_known(ctxt, loan);
    }
}

/// Well-formed facts describe every loan that they issue.
pub proof fn lemma_issued_known(ctxt: &PermissionsCtxt, loan: Loan)
    requires
        ctxt.facts.wf(),
        ctxt.facts.issued(loan),
    ensures
        loan < ctxt.facts.loans@.len(),
{
    let i = choose|i: int|
        0 <= i < ctxt.facts.loan_issued_at@.len() && (#[trigger] ctxt.facts.loan_issued_at@[i]).0
            == loan;
    assert(ctxt.facts.loan_issued_at@[i].0 < ctxt.facts.loans@.len());
}

/// A loan that is issued, conflicts with a path and is live at a point
/// takes the write and the drop capability of the path away there.
pub proof fn lemma_live_conflict_refines(ctxt: &PermissionsCtxt, loan: Loan, path: Path, point: Point)
    requires
        ctxt.derived(),
        path < ctxt.places@.len(),
        ctxt.facts.issued(loan),
        ctxt.facts.conflict(loan, path),
        ctxt.facts.loan_live(loan, point),
    ensures
        ctxt.permissions_output.write_refiner(path, point) is Some,
        ctxt.permissions_output.drop_refiner(path, point) is Some,
{
    let n = ctxt.places@.len() as int;
    assert(refines(&ctxt.facts, n, false, loan, path, point));
}

/// Where a loan is taken out of the liveness facts at a point, the tables
/// no longer name it there; a path that only this loan refined at the point
/// is refined no more.
pub proof fn lemma_dead_loan_releases(
    before: &PermissionsCtxt,
    after: &PermissionsCtxt,
    loan: Loan,
    path: Path,
    point: Point,
)
    requires
        before.derived(),
        after.derived(),
        before.places@.len() == after.places@.len(),
        forall|l: Loan| before.facts.issued(l) == after.facts.issued(l),
        forall|l: Loan, p: Path| before.facts.conflict(l, p) == after.facts.conflict(l, p),
        forall|l: Loan, at: Point|
            after.facts.loan_live(l, at) == (before.facts.loan_live(l, at) && !(l == loan && at
                == point)),
    ensures
        after.permissions_output.write_refiner(path, point) != Some(loan),
        after.permissions_output.drop_refiner(path, point) != Some(loan),
        (forall|other: Loan| #[trigger]
            refines(&before.facts, before.places@.len() as int, false, other, path, point) ==> other
                == loan) ==> after.permissions_output.write_refiner(path, point) is None
            && after.permissions_output.drop_refiner(path, point) is None,
{
    let n = after.places@.len() as int;
    assert forall|other: Loan|
        refines(&after.facts, n, false, other, path, point) implies #[trigger] refines(
        &before.facts,
        n,
        false,
        other,
        path,
        point,
    ) && other != loan by {}
    if let Some(found) = after.permissions_output.write_refiner(path, point) {
        assert(refines(&after.facts, n, false, found, path, point));
        assert(refines(&before.facts, n, false, found, path, point));
    }
    if let Some(found) = after.permissions_output.drop_refiner(path, point) {
        assert(refines(&after.facts, n, false, found, path, point));
        assert(refines(&before.facts, n, false, found, path, point));
    }
}

/// A path that only shared loans refine at a point can still be read
/// there, while it can be neither written nor dropped.
pub proof fn lemma_shared_borrow_reads(ctxt: &PermissionsCtxt, loan: Loan, path: Path, point: Point)
    requires
        ctxt.derived(),
        refines(&ctxt.facts, ctxt.places@.len() as int, false, loan, path, point),
        forall|other: Loan| #[trigger]
            refines(&ctxt.facts, ctxt.places@.len() as int, false, other, path, point)
                ==> !ctxt.facts.exclusive(other),
    ensures
        ctxt.permissions_output.read_refiner(path, point) is None,
        ctxt.permissions_output.write_refiner(path, point) is Some,
        ctxt.permissions_output.drop_refiner(path, point) is Some,
{
    let n = ctxt.places@.len() as int;
    if let Some(found) = ctxt.permissions_output.read_refiner(path, point) {
        assert(refines(&ctxt.facts, n, true, found, path, point));
        assert(refines(&ctxt.facts, n, false, found, path, point));
    }
}

} // verus!
