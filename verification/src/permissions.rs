//! The capabilities of a path at a point, and the domain of all paths.

use crate::context::PermissionsCtxt;
use crate::facts::relates_to;
use crate::place::{Loan, Path, Point};
use std::collections::{HashMap, HashSet};
use vstd::prelude::*;
use vstd::string::StringExecFns;

verus! {

broadcast use vstd::std_specs::hash::group_hash_axioms;

/// What may be done with a path: read it, write it, drop it.
#[derive(Clone, Copy, Debug, Hash, PartialEq, Eq, Structural)]
pub struct Permissions {
    pub read: bool,
    pub write: bool,
    pub drop: bool,
}

/// How a reference type lets its referent be used.
#[derive(Clone, Copy, Debug, Hash, PartialEq, Eq, Structural)]
pub enum Mutability {
    Not,
    Mut,
}

/// The capabilities that a parameter type asks of its argument: a value
/// that is no reference is read and dropped, a shared reference only read,
/// an exclusive reference read and written.
pub open spec fn expected_permissions(reference: Option<Mutability>) -> Permissions {
    match reference {
        None => Permissions { read: true, write: false, drop: true },
        Some(Mutability::Not) => Permissions { read: true, write: false, drop: false },
        Some(Mutability::Mut) => Permissions { read: true, write: true, drop: false },
    }
}

impl From<Option<Mutability>> for Permissions {
    fn from(reference: Option<Mutability>) -> (p: Permissions) {
        let read = true;
        let (write, drop) = match reference {
            None => (false, true),
            Some(Mutability::Not) => (false, false),
            Some(Mutability::Mut) => (true, false),
        };
        Permissions { read, write, drop }
    }
}

impl vstd::std_specs::convert::FromSpecImpl<Option<Mutability>> for Permissions {
    open spec fn obeys_from_spec() -> bool {
        true
    }

    open spec fn from_spec(reference: Option<Mutability>) -> Permissions {
        expected_permissions(reference)
    }
}

/// The letters of the capabilities held, or the empty-set sign for none.
pub open spec fn permissions_text(p: Permissions) -> Seq<char> {
    if !p.read && !p.write && !p.drop {
        seq!['\u{2205}']
    } else {
        (if p.read {
            seq!['R']
        } else {
            Seq::<char>::empty()
        }) + (if p.write {
            seq!['W']
        } else {
            Seq::<char>::empty()
        }) + (if p.drop {
            seq!['D']
        } else {
            Seq::<char>::empty()
        })
    }
}

impl Permissions {
    /// No capability at all.
    pub fn bottom() -> (p: Permissions)
        ensures
            p == (Permissions { read: false, write: false, drop: false }),
    {
        Permissions { read: false, write: false, drop: false }
    }

    /// The capabilities in short: `R`, `W` and `D` for the ones held.
    pub fn to_text(&self) -> (text: String)
        ensures
            text@ == permissions_text(*self),
    {
        proof {
            reveal_strlit("\u{2205}");
            reveal_strlit("R");
            reveal_strlit("W");
            reveal_strlit("D");
        }
        if !self.read && !self.write && !self.drop {
            let text = String::from_str("\u{2205}");
            assert(text@ =~= seq!['\u{2205}']);
            text
        } else {
            let mut text = String::new();
            if self.read {
                text.append("R");
            }
            if self.write {
                text.append("W");
            }
            if self.drop {
                text.append("D");
            }
            assert(text@ =~= permissions_text(*self));
            text
        }
    }
}

/// Everything that is known of a path at a point.
#[derive(Clone, Copy, Debug, PartialEq, Eq)]
pub struct PermissionsData {
    /// The path is used later on.
    pub is_live: bool,
    /// The path's type and position let it be dropped.
    pub type_droppable: bool,
    /// The path's type and declaration let it be written.
    pub type_writeable: bool,
    /// Values of the path's type are copied, not moved.
    pub type_copyable: bool,
    /// The path may have been moved out of.
    pub path_moved: bool,
    /// The loan that takes the read capability away.
    pub loan_read_refined: Option<Loan>,
    /// The loan that takes the write capability away.
    pub loan_write_refined: Option<Loan>,
    /// The loan that takes the drop capability away.
    pub loan_drop_refined: Option<Loan>,
    /// The capabilities that are left.
    pub permissions: Permissions,
}

/// The capabilities that a path holds: none where it is dead; else each one
/// that neither a move, nor a refining loan, nor the path's type takes away.
pub open spec fn permissions_of(
    is_live: bool,
    type_writeable: bool,
    type_droppable: bool,
    path_moved: bool,
    read_refined: bool,
    write_refined: bool,
    drop_refined: bool,
) -> Permissions {
    if !is_live {
        Permissions { read: false, write: false, drop: false }
    } else {
        Permissions {
            read: !path_moved && !read_refined,
            write: type_writeable && !path_moved && !write_refined,
            drop: type_droppable && !path_moved && !drop_refined,
        }
    }
}

/// The paths of a function body with what is known of each at one point. A
/// path's entry stands at the path's index.
#[derive(Debug)]
pub struct PermissionsDomain {
    pub entries: Vec<PermissionsData>,
}

impl View for PermissionsDomain {
    type V = Seq<PermissionsData>;

    open spec fn view(&self) -> Seq<PermissionsData> {
        self.entries@
    }
}

/// The loan that a table of refinements names for a path at a point.
pub(crate) fn lookup_refiner(table: &HashMap<Point, HashMap<Path, Loan>>, path: Path, point: Point) -> (r:
    Option<Loan>)
    ensures
        r == crate::output::refiner_in(table@, path, point),
{
    match table.get(&point) {
        Some(inner) => match inner.get(&path) {
            Some(loan) => Some(*loan),
            None => None,
        },
        None => None,
    }
}

/// Whether a table of moves names a path at a point.
pub(crate) fn lookup_member(table: &HashMap<Point, HashSet<Path>>, point: Point, path: Path) -> (r: bool)
    ensures
        r == crate::output::member_in(table@, point, path),
{
    match table.get(&point) {
        Some(inner) => inner.contains(&path),
        None => false,
    }
}

/// From `from` on, the target of the first edge that leaves the point.
pub open spec fn first_successor(edges: Seq<(Point, Point)>, point: Point, from: int) -> Option<Point>
    decreases edges.len() - from,
{
    if from < 0 || from >= edges.len() {
        None
    } else if edges[from].0 == point {
        Some(edges[from].1)
    } else {
        first_successor(edges, point, from + 1)
    }
}

impl PermissionsCtxt {
    /// The domain when a point has taken effect: the domain at the point's
    /// first successor, where it has one.
    pub open spec fn domain_after(&self, point: Point) -> Option<Seq<PermissionsData>> {
        match first_successor(self.facts.cfg_edge@, point, 0) {
            Some(next) => Some(self.domain_at(next)),
            None => None,
        }
    }

    /// The domain when a point has taken effect.
    pub fn permissions_domain_after_point_effect(&self, point: Point) -> (found: Option<
        PermissionsDomain,
    >)
        requires
            self.facts.wf(),
            point < self.facts.points@.len(),
        ensures
            match found {
                Some(domain) => self.domain_after(point) == Some(domain@),
                None => self.domain_after(point) is None,
            },
    {
        let mut i: usize = 0;
        while i < self.facts.cfg_edge.len()
            invariant
                i <= self.facts.cfg_edge.len(),
                self.facts.wf(),
                first_successor(self.facts.cfg_edge@, point, 0) == first_successor(
                    self.facts.cfg_edge@,
                    point,
                    i as int,
                ),
            decreases self.facts.cfg_edge.len() - i,
        {
            if self.facts.cfg_edge[i].0 == point {
                return Some(self.permissions_domain_at_point(self.facts.cfg_edge[i].1));
            }
            i += 1;
        }
        None
    }

    /// What is known of a path at a point, as the derived facts give it.
    pub open spec fn data_at(&self, path: Path, point: Point) -> PermissionsData {
        let out = &self.permissions_output;
        let is_live = self.facts.path_live(path, point);
        let type_droppable = !out.never_drop@.contains(path);
        let type_writeable = !out.never_write@.contains(path);
        let path_moved = out.moved(path, point);
        let loan_read_refined = out.read_refiner(path, point);
        let loan_write_refined = out.write_refiner(path, point);
        let loan_drop_refined = out.drop_refiner(path, point);
        PermissionsData {
            is_live,
            type_droppable,
            type_writeable,
            type_copyable: self.places@[path as int].copyable,
            path_moved,
            loan_read_refined,
            loan_write_refined,
            loan_drop_refined,
            permissions: permissions_of(
                is_live,
                type_writeable,
                type_droppable,
                path_moved,
                loan_read_refined is Some,
                loan_write_refined is Some,
                loan_drop_refined is Some,
            ),
        }
    }

    /// The domain at a point: the data of every path, by path.
    pub open spec fn domain_at(&self, point: Point) -> Seq<PermissionsData> {
        Seq::new(self.places@.len(), |path: int| self.data_at(path as Path, point))
    }

    /// What is known of a path at a point.
    pub fn permissions_data_at_point(&self, path: Path, point: Point) -> (data: PermissionsData)
        requires
            path < self.places@.len(),
            point < self.facts.points@.len(),
        ensures
            data == self.data_at(path, point),
            self.permissions_output.never_write@.contains(path) ==> !data.permissions.write,
            self.permissions_output.never_drop@.contains(path) ==> !data.permissions.drop,
    {
        let out = &self.permissions_output;
        let is_live = relates_to(&self.facts.path_live_at, point, path);
        let type_droppable = !out.never_drop.contains(&path);
        let type_writeable = !out.never_write.contains(&path);
        let type_copyable = self.places.get(path).copyable;
        let path_moved = lookup_member(&out.path_maybe_uninitialized_on_entry, point, path);
        let loan_read_refined = lookup_refiner(&out.cannot_read, path, point);
        let loan_write_refined = lookup_refiner(&out.cannot_write, path, point);
        let loan_drop_refined = lookup_refiner(&out.cannot_drop, path, point);
        let permissions = if !is_live {
            Permissions::bottom()
        } else {
            Permissions {
                read: !path_moved && loan_read_refined.is_none(),
                write: type_writeable && !path_moved && loan_write_refined.is_none(),
                drop: type_droppable && !path_moved && loan_drop_refined.is_none(),
            }
        };
        PermissionsData {
            is_live,
            type_droppable,
            type_writeable,
            type_copyable,
            path_moved,
            loan_read_refined,
            loan_write_refined,
            loan_drop_refined,
            permissions,
        }
    }

    /// The capabilities of a path at a point.
    pub fn permissions_at_point(&self, path: Path, point: Point) -> (p: Permissions)
        requires
            path < self.places@.len(),
            point < self.facts.points@.len(),
        ensures
            p == self.data_at(path, point).permissions,
    {
        self.permissions_data_at_point(path, point).permissions
    }

    /// The domain at a point.
    pub fn permissions_domain_at_point(&self, point: Point) -> (domain: PermissionsDomain)
        requires
            point < self.facts.points@.len(),
        ensures
            domain@ == self.domain_at(point),
    {
        let mut entries: Vec<PermissionsData> = Vec::new();
        let n = self.places.len();
        let mut path: usize = 0;
        while path < n
            invariant
                path <= n,
                n == self.places@.len(),
                point < self.facts.points@.len(),
                entries@ == self.domain_at(point).take(path as int),
            decreases n - path,
        {
            let data = self.permissions_data_at_point(path, point);
            entries.push(data);
            assert(entries@ =~= self.domain_at(point).take(path + 1));
            path += 1;
        }
        assert(self.domain_at(point).take(n as int) == self.domain_at(point));
        PermissionsDomain { entries }
    }
}

/// A path that is structurally never written has no write capability at
/// any point, and one that is structurally never dropped no drop
/// capability; a path that a table names as refined, or that may have been
/// moved, lacks the capability too.
pub proof fn lemma_structural_denial(ctxt: &PermissionsCtxt, path: Path, point: Point)
    requires
        ctxt.derived(),
        path < ctxt.places@.len(),
    ensures
        crate::output::never_write(ctxt.places@[path as int]) ==> !ctxt.data_at(
            path,
            point,
        ).permissions.write,
        crate::output::never_drop(ctxt.places@[path as int]) ==> !ctxt.data_at(
            path,
            point,
        ).permissions.drop,
        ctxt.permissions_output.moved(path, point) ==> ctxt.data_at(path, point).permissions
            == (Permissions { read: false, write: false, drop: false }),
        ctxt.permissions_output.write_refiner(path, point) is Some ==> !ctxt.data_at(
            path,
            point,
        ).permissions.write,
        ctxt.permissions_output.drop_refiner(path, point) is Some ==> !ctxt.data_at(
            path,
            point,
        ).permissions.drop,
        ctxt.permissions_output.read_refiner(path, point) is Some ==> !ctxt.data_at(
            path,
            point,
        ).permissions.read,
{
    assert(ctxt.permissions_output.never_write@.contains(path) == crate::output::never_write(
        ctxt.places@[path as int],
    ));
    assert(ctxt.permissions_output.never_drop@.contains(path) == crate::output::never_drop(
        ctxt.places@[path as int],
    ));
}

} // verus!
