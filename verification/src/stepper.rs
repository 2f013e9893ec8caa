//! The differences between the capabilities at two points.

use crate::permissions::{Permissions, PermissionsData, PermissionsDomain};
use crate::place::{Loan, Path};
use vstd::prelude::*;
use vstd::string::StringExecFns;

verus! {

/// Which paths a step shows: the ones whose capabilities change, or all.
#[derive(Debug, PartialEq, Eq, Clone, Copy, Hash, Structural)]
pub enum PermIncludeMode {
    Changes,
    All,
}

/// What is said of a text that names no mode.
pub open spec fn parse_failure(text: Seq<char>) -> Seq<char> {
    "Could not parse: "@ + text
}

/// `parsed` is what a text gives as a mode: the mode that the text names,
/// `Changes` or `All`, and for any other text the message that says so.
pub open spec fn names_mode(text: Seq<char>, parsed: Result<PermIncludeMode, String>) -> bool {
    match parsed {
        Ok(mode) => (mode == PermIncludeMode::Changes && text == "Changes"@) || (mode
            == PermIncludeMode::All && text == "All"@),
        Err(message) => text != "Changes"@ && text != "All"@ && message@ == parse_failure(text),
    }
}

impl PermIncludeMode {
    /// The mode that a text names: `Changes` or `All`.
    pub fn parse(s: &str) -> (r: Result<PermIncludeMode, String>)
        ensures
            names_mode(s@, r),
    {
        let text = String::from_str(s);
        if text == String::from_str("Changes") {
            Ok(PermIncludeMode::Changes)
        } else if text == String::from_str("All") {
            Ok(PermIncludeMode::All)
        } else {
            Err(String::from_str("Could not parse: ").concat(s))
        }
    }
}

impl std::str::FromStr for PermIncludeMode {
    type Err = String;

    fn from_str(s: &str) -> (r: Result<PermIncludeMode, String>)
        ensures
            names_mode(s@, r),
    {
        PermIncludeMode::parse(s)
    }
}

/// How a value differs between two points: it rises, it falls, or it stays
/// as it is, with the value that stays where there is one.
#[derive(Clone, Copy, Debug, PartialEq, Eq)]
pub enum ValueStep<A> {
    High,
    Low,
    Unchanged { value: Option<A> },
}

impl<A> ValueStep<A> {
    /// Nothing rises or falls.
    pub fn is_empty(&self) -> (r: bool)
        ensures
            r == (*self is Unchanged),
    {
        match self {
            ValueStep::Unchanged { .. } => true,
            _ => false,
        }
    }
}

/// What can be compared between two points.
pub trait Difference: Sized {
    type Diff;

    /// The two values can be compared.
    spec fn comparable(&self, rhs: Self) -> bool;

    /// `diff` is what leads from `self` to `rhs`.
    spec fn differs_by(&self, rhs: Self, diff: Self::Diff) -> bool;

    /// What leads from `self` to `rhs`.
    fn diff(&self, rhs: Self) -> (diff: Self::Diff)
        requires
            self.comparable(rhs),
        ensures
            self.differs_by(rhs, diff),
    ;
}

/// The step from one truth value to another.
pub open spec fn bool_step(from: bool, to: bool) -> ValueStep<bool> {
    if from && !to {
        ValueStep::Low
    } else if !from && to {
        ValueStep::High
    } else {
        ValueStep::Unchanged { value: Some(from) }
    }
}

/// The step from one optional value to another: what appears rises, what
/// disappears falls, and what stays is given as it is at the end.
pub open spec fn option_step<A>(from: Option<A>, to: Option<A>) -> ValueStep<A> {
    match (from, to) {
        (None, None) => ValueStep::Unchanged { value: None },
        (Some(_), None) => ValueStep::Low,
        (None, Some(_)) => ValueStep::High,
        (Some(_), Some(v1)) => ValueStep::Unchanged { value: Some(v1) },
    }
}

impl Difference for bool {
    type Diff = ValueStep<bool>;

    open spec fn comparable(&self, rhs: bool) -> bool {
        true
    }

    open spec fn differs_by(&self, rhs: bool, diff: ValueStep<bool>) -> bool {
        diff == bool_step(*self, rhs)
    }

    fn diff(&self, rhs: bool) -> (diff: ValueStep<bool>) {
        if *self && !rhs {
            ValueStep::Low
        } else if !*self && rhs {
            ValueStep::High
        } else {
            ValueStep::Unchanged { value: Some(*self) }
        }
    }
}

impl<A> Difference for Option<A> {
    type Diff = ValueStep<A>;

    open spec fn comparable(&self, rhs: Option<A>) -> bool {
        true
    }

    open spec fn differs_by(&self, rhs: Option<A>, diff: ValueStep<A>) -> bool {
        diff == option_step(*self, rhs)
    }

    fn diff(&self, rhs: Option<A>) -> (diff: ValueStep<A>) {
        match (self, rhs) {
            (None, None) => ValueStep::Unchanged { value: None },
            (Some(_), None) => ValueStep::Low,
            (None, Some(_)) => ValueStep::High,
            (Some(_), Some(v1)) => ValueStep::Unchanged { value: Some(v1) },
        }
    }
}

/// How the three capabilities differ between two points.
#[derive(Clone, Copy, Debug, PartialEq, Eq)]
pub struct PermissionsDiff {
    pub read: ValueStep<bool>,
    pub write: ValueStep<bool>,
    pub drop: ValueStep<bool>,
}

impl PermissionsDiff {
    /// No capability rises or falls.
    pub fn is_empty(&self) -> (r: bool)
        ensures
            r == (self.read is Unchanged && self.write is Unchanged && self.drop is Unchanged),
    {
        self.read.is_empty() && self.write.is_empty() && self.drop.is_empty()
    }
}

/// How everything that is known of a path differs between two points.
#[derive(Clone, Copy, Debug, PartialEq, Eq)]
pub struct PermissionsDataDiff {
    pub is_live: ValueStep<bool>,
    pub type_droppable: ValueStep<bool>,
    pub type_writeable: ValueStep<bool>,
    pub path_moved: ValueStep<bool>,
    pub loan_read_refined: ValueStep<Loan>,
    pub loan_write_refined: ValueStep<Loan>,
    pub loan_drop_refined: ValueStep<Loan>,
    pub permissions: PermissionsDiff,
}

impl PermissionsDataDiff {
    /// No capability rises or falls.
    pub open spec fn unchanged(&self) -> bool {
        self.permissions.read is Unchanged && self.permissions.write is Unchanged
            && self.permissions.drop is Unchanged
    }

    /// No capability rises or falls.
    pub fn is_empty(&self) -> (r: bool)
        ensures
            r == self.unchanged(),
    {
        self.permissions.is_empty()
    }
}

/// The steps of the three capabilities.
pub open spec fn permissions_step(from: Permissions, to: Permissions) -> PermissionsDiff {
    PermissionsDiff {
        read: bool_step(from.read, to.read),
        write: bool_step(from.write, to.write),
        drop: bool_step(from.drop, to.drop),
    }
}

/// The steps of everything that is known of a path.
pub open spec fn data_step(from: PermissionsData, to: PermissionsData) -> PermissionsDataDiff {
    PermissionsDataDiff {
        is_live: bool_step(from.is_live, to.is_live),
        type_droppable: bool_step(from.type_droppable, to.type_droppable),
        type_writeable: bool_step(from.type_writeable, to.type_writeable),
        path_moved: bool_step(from.path_moved, to.path_moved),
        loan_read_refined: option_step(from.loan_read_refined, to.loan_read_refined),
        loan_write_refined: option_step(from.loan_write_refined, to.loan_write_refined),
        loan_drop_refined: option_step(from.loan_drop_refined, to.loan_drop_refined),
        permissions: permissions_step(from.permissions, to.permissions),
    }
}

/// The steps of every path of a domain, by path.
pub open spec fn domain_step(from: Seq<PermissionsData>, to: Seq<PermissionsData>) -> Seq<
    (Path, PermissionsDataDiff),
> {
    Seq::new(from.len(), |path: int| (path as Path, data_step(from[path], to[path])))
}

impl Difference for Permissions {
    type Diff = PermissionsDiff;

    open spec fn comparable(&self, rhs: Permissions) -> bool {
        true
    }

    open spec fn differs_by(&self, rhs: Permissions, diff: PermissionsDiff) -> bool {
        diff == permissions_step(*self, rhs)
    }

    fn diff(&self, rhs: Permissions) -> (diff: PermissionsDiff) {
        PermissionsDiff {
            read: self.read.diff(rhs.read),
            write: self.write.diff(rhs.write),
            drop: self.drop.diff(rhs.drop),
        }
    }
}

impl Difference for PermissionsData {
    type Diff = PermissionsDataDiff;

    open spec fn comparable(&self, rhs: PermissionsData) -> bool {
        true
    }

    open spec fn differs_by(&self, rhs: PermissionsData, diff: PermissionsDataDiff) -> bool {
        diff == data_step(*self, rhs)
    }

    fn diff(&self, rhs: PermissionsData) -> (diff: PermissionsDataDiff) {
        PermissionsDataDiff {
            is_live: self.is_live.diff(rhs.is_live),
            type_droppable: self.type_droppable.diff(rhs.type_droppable),
            type_writeable: self.type_writeable.diff(rhs.type_writeable),
            loan_read_refined: self.loan_read_refined.diff(rhs.loan_read_refined),
            loan_write_refined: self.loan_write_refined.diff(rhs.loan_write_refined),
            loan_drop_refined: self.loan_drop_refined.diff(rhs.loan_drop_refined),
            path_moved: self.path_moved.diff(rhs.path_moved),
            permissions: self.permissions.diff(rhs.permissions),
        }
    }
}

impl Difference for &PermissionsDomain {
    type Diff = Vec<(Path, PermissionsDataDiff)>;

    /// The second domain knows every path of the first.
    open spec fn comparable(&self, rhs: &PermissionsDomain) -> bool {
        self@.len() <= rhs@.len()
    }

    open spec fn differs_by(
        &self,
        rhs: &PermissionsDomain,
        diff: Vec<(Path, PermissionsDataDiff)>,
    ) -> bool {
        diff@ == domain_step(self@, rhs@)
    }

    fn diff(&self, rhs: &PermissionsDomain) -> (diff: Vec<(Path, PermissionsDataDiff)>) {
        let mut diff: Vec<(Path, PermissionsDataDiff)> = Vec::new();
        let mut path: usize = 0;
        while path < self.entries.len()
            invariant
                path <= self.entries.len(),
                self@.len() <= rhs@.len(),
                diff@ == domain_step(self@, rhs@).take(path as int),
            decreases self.entries.len() - path,
        {
            let step = self.entries[path].diff(rhs.entries[path]);
            diff.push((path, step));
            assert(diff@ =~= domain_step(self@, rhs@).take(path + 1));
            path += 1;
        }
        assert(domain_step(self@, rhs@).take(path as int) =~= domain_step(self@, rhs@));
        diff
    }
}

} // verus!
