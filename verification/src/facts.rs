//! The facts that the analysis is given about one function body.

use crate::place::{Loan, Path, Point};
use crate::span::{all_wf, Span};
use vstd::prelude::*;

verus! {

/// One borrow: what it borrows, how, and where it is in force.
#[derive(Clone, Copy, Debug)]
pub struct LoanData {
    /// The path that is borrowed.
    pub borrowed: Path,
    /// The borrow is exclusive (`&mut`).
    pub mutable: bool,
    /// Where the source text takes the borrow.
    pub reserve_span: Span,
    /// The first and the last point at which the loan is live.
    pub region: (Point, Point),
}

/// Where a point of the control-flow graph lies in the source text.
#[derive(Debug)]
pub struct PointData {
    /// The span of the instruction at the point.
    pub span: Span,
    /// The spans of the syntax nodes that the instruction belongs to.
    pub enclosing: Vec<Span>,
}

/// Borrow, liveness, move and control-flow facts, over paths, points and
/// loans that are indices: a loan into `loans`, a point into `points`.
#[derive(Debug)]
pub struct InputFacts {
    pub loans: Vec<LoanData>,
    pub points: Vec<PointData>,
    /// A loan and the point at which it is issued.
    pub loan_issued_at: Vec<(Loan, Point)>,
    /// A point and the loans that are live there.
    pub loan_live_at: Vec<(Point, Vec<Loan>)>,
    /// An edge of the control-flow graph, from the first point to the second.
    pub cfg_edge: Vec<(Point, Point)>,
    /// A point and the paths that may be uninitialized when it has run.
    pub path_maybe_uninitialized_on_exit: Vec<(Point, Vec<Path>)>,
    /// A point and the paths that are live there.
    pub path_live_at: Vec<(Point, Vec<Path>)>,
    /// A loan and a path whose use would touch what the loan borrows.
    pub loan_conflicts: Vec<(Loan, Path)>,
}

/// Whether a keyed list of sets relates `key` to `value`.
pub open spec fn relates(table: Seq<(usize, Vec<usize>)>, key: usize, value: usize) -> bool {
    exists|i: int, j: int|
        0 <= i < table.len() && 0 <= j < table[i].1@.len() && (#[trigger] table[i]).0 == key
            && #[trigger] table[i].1@[j] == value
}

/// The loan is one of the list, and an exclusive borrow.
pub open spec fn is_exclusive(loans: Seq<LoanData>, loan: Loan) -> bool {
    loan < loans.len() && loans[loan as int].mutable
}

/// Whether some pair of the list has `a` in first place.
pub open spec fn has_first(pairs: Seq<(usize, usize)>, a: usize) -> bool {
    exists|i: int| 0 <= i < pairs.len() && (#[trigger] pairs[i]).0 == a
}

impl InputFacts {
    /// The facts name only loans and points that they describe: each loan
    /// that is issued is one of `loans`, each loan is live from a point of
    /// `points` to a point of `points`, and liveness and the edges of the
    /// control-flow graph are stated of points of `points`. Every span ends
    /// no earlier than it starts.
    pub open spec fn wf(&self) -> bool {
        &&& forall|l: int| 0 <= l < self.loans@.len() ==> (#[trigger] self.loans@[l]).reserve_span.wf()
        &&& forall|p: int|
            0 <= p < self.points@.len() ==> (#[trigger] self.points@[p]).span.wf() && all_wf(
                self.points@[p].enclosing@,
            )
        &&& forall|i: int|
            0 <= i < self.cfg_edge@.len() ==> (#[trigger] self.cfg_edge@[i]).0 < self.points@.len()
                && self.cfg_edge@[i].1 < self.points@.len()
        &&& forall|i: int|
            0 <= i < self.loan_issued_at@.len() ==> (#[trigger] self.loan_issued_at@[i]).0
                < self.loans@.len()
        &&& forall|l: int|
            0 <= l < self.loans@.len() ==> (#[trigger] self.loans@[l]).region.0 < self.points@.len()
                && self.loans@[l].region.1 < self.points@.len()
        &&& forall|i: int|
            0 <= i < self.loan_live_at@.len() ==> (#[trigger] self.loan_live_at@[i]).0
                < self.points@.len()
    }

    /// Tests whether the facts are well formed.
    pub fn is_well_formed(&self) -> (r: bool)
        ensures
            r == self.wf(),
    {
        let mut s: usize = 0;
        while s < self.loans.len()
            invariant
                s <= self.loans.len(),
                forall|k: int| 0 <= k < s ==> (#[trigger] self.loans@[k]).reserve_span.wf(),
            decreases self.loans.len() - s,
        {
            if !self.loans[s].reserve_span.is_well_formed() {
                return false;
            }
            s += 1;
        }
        let mut p: usize = 0;
        while p < self.points.len()
            invariant
                p <= self.points.len(),
                forall|k: int|
                    0 <= k < p ==> (#[trigger] self.points@[k]).span.wf() && all_wf(
                        self.points@[k].enclosing@,
                    ),
            decreases self.points.len() - p,
        {
            if !self.points[p].span.is_well_formed() {
                return false;
            }
            let mut q: usize = 0;
            while q < self.points[p].enclosing.len()
                invariant
                    p < self.points.len(),
                    q <= self.points@[p as int].enclosing@.len(),
                    forall|k: int|
                        0 <= k < q ==> (#[trigger] self.points@[p as int].enclosing@[k]).wf(),
                decreases self.points@[p as int].enclosing@.len() - q,
            {
                if !self.points[p].enclosing[q].is_well_formed() {
                    return false;
                }
                q += 1;
            }
            p += 1;
        }
        let mut i: usize = 0;
        while i < self.loan_issued_at.len()
            invariant
                i <= self.loan_issued_at.len(),
                forall|k: int| 0 <= k < i ==> (#[trigger] self.loan_issued_at@[k]).0 < self.loans@.len(),
            decreases self.loan_issued_at.len() - i,
        {
            if self.loan_issued_at[i].0 >= self.loans.len() {
                return false;
            }
            i += 1;
        }
        let mut l: usize = 0;
        while l < self.loans.len()
            invariant
                l <= self.loans.len(),
                forall|k: int|
                    0 <= k < l ==> (#[trigger] self.loans@[k]).region.0 < self.points@.len()
                        && self.loans@[k].region.1 < self.points@.len(),
            decreases self.loans.len() - l,
        {
            if self.loans[l].region.0 >= self.points.len() || self.loans[l].region.1
                >= self.points.len() {
                return false;
            }
            l += 1;
        }
        let mut e: usize = 0;
        while e < self.cfg_edge.len()
            invariant
                e <= self.cfg_edge.len(),
                forall|k: int|
                    0 <= k < e ==> (#[trigger] self.cfg_edge@[k]).0 < self.points@.len()
                        && self.cfg_edge@[k].1 < self.points@.len(),
            decreases self.cfg_edge.len() - e,
        {
            if self.cfg_edge[e].0 >= self.points.len() || self.cfg_edge[e].1 >= self.points.len() {
                return false;
            }
            e += 1;
        }
        let mut j: usize = 0;
        while j < self.loan_live_at.len()
            invariant
                j <= self.loan_live_at.len(),
                forall|k: int| 0 <= k < j ==> (#[trigger] self.loan_live_at@[k]).0 < self.points@.len(),
            decreases self.loan_live_at.len() - j,
        {
            if self.loan_live_at[j].0 >= self.points.len() {
                return false;
            }
            j += 1;
        }
        true
    }

    /// The loan is issued somewhere.
    pub open spec fn issued(&self, loan: Loan) -> bool {
        has_first(self.loan_issued_at@, loan)
    }

    /// The loan is live at the point.
    pub open spec fn loan_live(&self, loan: Loan, point: Point) -> bool {
        relates(self.loan_live_at@, point, loan)
    }

    /// Using the path would touch what the loan borrows.
    pub open spec fn conflict(&self, loan: Loan, path: Path) -> bool {
        self.loan_conflicts@.contains((loan, path))
    }

    /// The loan is an exclusive borrow.
    pub open spec fn exclusive(&self, loan: Loan) -> bool {
        is_exclusive(self.loans@, loan)
    }

    /// The control-flow graph has an edge between the points.
    pub open spec fn edge(&self, from: Point, to: Point) -> bool {
        self.cfg_edge@.contains((from, to))
    }

    /// The path may be uninitialized when the point has run.
    pub open spec fn uninitialized_on_exit(&self, point: Point, path: Path) -> bool {
        relates(self.path_maybe_uninitialized_on_exit@, point, path)
    }

    /// The path is live at the point.
    pub open spec fn path_live(&self, path: Path, point: Point) -> bool {
        relates(self.path_live_at@, point, path)
    }
}

/// Whether a loan is an exclusive borrow; a loan that the list does not hold
/// is none.
pub fn is_mutable_loan(loans: &Vec<LoanData>, loan: Loan) -> (r: bool)
    ensures
        r == is_exclusive(loans@, loan),
{
    loan < loans.len() && loans[loan].mutable
}

/// Whether the list holds the value.
pub fn holds(values: &Vec<usize>, value: usize) -> (r: bool)
    ensures
        r == values@.contains(value),
{
    let mut i: usize = 0;
    while i < values.len()
        invariant
            i <= values.len(),
            forall|k: int| 0 <= k < i ==> values@[k] != value,
        decreases values.len() - i,
    {
        if values[i] == value {
            return true;
        }
        i += 1;
    }
    false
}

/// Whether a keyed list of sets relates `key` to `value`.
pub fn relates_to(table: &Vec<(usize, Vec<usize>)>, key: usize, value: usize) -> (r: bool)
    ensures
        r == relates(table@, key, value),
{
    let mut i: usize = 0;
    while i < table.len()
        invariant
            i <= table.len(),
            forall|a: int, b: int|
                0 <= a < i && 0 <= b < table@[a].1@.len() ==> !((#[trigger] table@[a]).0 == key
                    && #[trigger] table@[a].1@[b] == value),
        decreases table.len() - i,
    {
        if table[i].0 == key && holds(&table[i].1, value) {
            return true;
        }
        i += 1;
    }
    false
}

/// Whether some pair of the list has `a` in first place.
pub fn holds_first(pairs: &Vec<(usize, usize)>, a: usize) -> (r: bool)
    ensures
        r == has_first(pairs@, a),
{
    let mut i: usize = 0;
    while i < pairs.len()
        invariant
            i <= pairs.len(),
            forall|k: int| 0 <= k < i ==> (#[trigger] pairs@[k]).0 != a,
        decreases pairs.len() - i,
    {
        if pairs[i].0 == a {
            return true;
        }
        i += 1;
    }
    false
}

/// Whether the list holds the pair.
pub fn holds_pair(pairs: &Vec<(usize, usize)>, a: usize, b: usize) -> (r: bool)
    ensures
        r == pairs@.contains((a, b)),
{
    let mut i: usize = 0;
    while i < pairs.len()
        invariant
            i <= pairs.len(),
            forall|k: int| 0 <= k < i ==> pairs@[k] != (a, b),
        decreases pairs.len() - i,
    {
        if pairs[i].0 == a && pairs[i].1 == b {
            return true;
        }
        i += 1;
    }
    false
}

} // verus!
