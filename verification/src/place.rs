//! Memory places and the table that interns them as compact paths.

use vstd::prelude::*;

verus! {

/// A local variable of the analysed function.
pub type Local = usize;

/// An interned place: its index in the [`PathTable`].
pub type Path = usize;

/// A location of the control-flow graph.
pub type Point = usize;

/// A borrow event.
pub type Loan = usize;

/// What is dereferenced where a place goes through a pointer.
#[derive(Clone, Copy, Debug, PartialEq, Eq, Hash, Structural)]
pub enum Pointer {
    /// A shared reference, `&T`.
    SharedRef,
    /// An exclusive reference, `&mut T`.
    MutRef,
    /// Anything else that can be dereferenced: a raw pointer, a box.
    Other,
}

/// One step from a place to a place inside it.
#[derive(Clone, Copy, Debug, PartialEq, Eq, Hash, Structural)]
pub enum PlaceElem {
    Deref(Pointer),
    Field(usize),
    Index(usize),
    Downcast(usize),
}

/// A normalized memory location: a local and the projections applied to it.
#[derive(Debug, PartialEq, Eq, Hash)]
pub struct Place {
    pub local: Local,
    pub projection: Vec<PlaceElem>,
}

impl View for Place {
    type V = (Local, Seq<PlaceElem>);

    open spec fn view(&self) -> (Local, Seq<PlaceElem>) {
        (self.local, self.projection@)
    }
}

/// Whether some projection of the sequence is a dereference.
pub open spec fn goes_through_pointer(projection: Seq<PlaceElem>) -> bool {
    exists|i: int| 0 <= i < projection.len() && (#[trigger] projection[i]) is Deref
}

/// Whether some projection of the sequence dereferences a shared reference.
pub open spec fn goes_through_shared_ref(projection: Seq<PlaceElem>) -> bool {
    exists|i: int|
        0 <= i < projection.len() && (#[trigger] projection[i]) == PlaceElem::Deref(
            Pointer::SharedRef,
        )
}

impl Clone for Place {
    fn clone(&self) -> (r: Place)
        ensures
            r@ == self@,
    {
        let mut projection: Vec<PlaceElem> = Vec::new();
        let mut i: usize = 0;
        while i < self.projection.len()
            invariant
                i <= self.projection.len(),
                projection@ == self.projection@.take(i as int),
            decreases self.projection.len() - i,
        {
            projection.push(self.projection[i]);
            i += 1;
        }
        assert(self.projection@.take(self.projection.len() as int) == self.projection@);
        Place { local: self.local, projection }
    }
}

impl Place {
    /// A place that is a local itself.
    pub fn from_local(local: Local) -> (r: Place)
        ensures
            r@ == (local, Seq::<PlaceElem>::empty()),
    {
        Place { local, projection: Vec::new() }
    }

    /// Structural equality of two places.
    pub fn same(&self, other: &Place) -> (r: bool)
        ensures
            r == (self@ == other@),
    {
        if self.local != other.local || self.projection.len() != other.projection.len() {
            return false;
        }
        let mut i: usize = 0;
        while i < self.projection.len()
            invariant
                i <= self.projection.len(),
                self.projection.len() == other.projection.len(),
                forall|k: int| 0 <= k < i ==> self.projection@[k] == other.projection@[k],
            decreases self.projection.len() - i,
        {
            if self.projection[i] != other.projection[i] {
                return false;
            }
            i += 1;
        }
        assert(self.projection@ =~= other.projection@);
        true
    }

    /// Whether the place is reached through at least one dereference.
    pub fn is_indirect(&self) -> (r: bool)
        ensures
            r == goes_through_pointer(self.projection@),
    {
        let mut i: usize = 0;
        while i < self.projection.len()
            invariant
                i <= self.projection.len(),
                forall|k: int| 0 <= k < i ==> !(self.projection@[k] is Deref),
            decreases self.projection.len() - i,
        {
            match self.projection[i] {
                PlaceElem::Deref(_) => {
                    return true;
                },
                _ => {},
            }
            i += 1;
        }
        false
    }

    /// Whether the place is reached through a shared reference.
    pub fn behind_shared_ref(&self) -> (r: bool)
        ensures
            r == goes_through_shared_ref(self.projection@),
    {
        let mut i: usize = 0;
        while i < self.projection.len()
            invariant
                i <= self.projection.len(),
                forall|k: int|
                    0 <= k < i ==> self.projection@[k] != PlaceElem::Deref(Pointer::SharedRef),
            decreases self.projection.len() - i,
        {
            if self.projection[i] == PlaceElem::Deref(Pointer::SharedRef) {
                return true;
            }
            i += 1;
        }
        false
    }
}

/// What the analysis reads of one place.
#[derive(Debug)]
pub struct PlaceData {
    pub place: Place,
    /// The binding behind the place was declared without `mut`.
    pub declared_readonly: bool,
    /// Values of the place's type are copied, not moved.
    pub copyable: bool,
    /// The place can be named in the source text.
    pub source_visible: bool,
    /// How the source text names the place, where it has a name.
    pub name: Option<String>,
}

/// No place occurs at two indices.
pub open spec fn injective(places: Seq<PlaceData>) -> bool {
    forall|i: int, j: int|
        0 <= i < j < places.len() ==> (#[trigger] places[i]).place@ != (#[trigger] places[j]).place@
}

/// Some index below `n` holds the place.
pub open spec fn interned_below(places: Seq<PlaceData>, n: int, place: (Local, Seq<PlaceElem>)) -> bool {
    exists|i: int| 0 <= i < n && i < places.len() && (#[trigger] places[i]).place@ == place
}

/// The interning table: each place once, a place's index being its path.
pub struct PathTable {
    entries: Vec<PlaceData>,
}

impl View for PathTable {
    type V = Seq<PlaceData>;

    closed spec fn view(&self) -> Seq<PlaceData> {
        self.entries@
    }
}

impl PathTable {
    /// The table's invariant: no place has two paths.
    pub open spec fn wf(&self) -> bool {
        injective(self@)
    }

    pub fn new() -> (t: PathTable)
        ensures
            t.wf(),
            t@.len() == 0,
    {
        PathTable { entries: Vec::new() }
    }

    /// The number of paths; the paths are the numbers below it.
    pub fn len(&self) -> (n: usize)
        ensures
            n == self@.len(),
    {
        self.entries.len()
    }

    /// The path of a place, if the place was interned.
    pub fn place_to_path(&self, place: &Place) -> (r: Option<Path>)
        ensures
            match r {
                Some(path) => path < self@.len() && self@[path as int].place@ == place@,
                None => !interned_below(self@, self@.len() as int, place@),
            },
    {
        let mut i: usize = 0;
        while i < self.entries.len()
            invariant
                i <= self.entries.len(),
                !interned_below(self.entries@, i as int, place@),
            decreases self.entries.len() - i,
        {
            if self.entries[i].place.same(place) {
                return Some(i);
            }
            i += 1;
        }
        None
    }

    /// Interns a place: a place that the table holds keeps its path and its
    /// data, a new one gets the next path.
    pub fn new_path(&mut self, data: PlaceData) -> (path: Path)
        requires
            old(self).wf(),
        ensures
            final(self).wf(),
            path < final(self)@.len(),
            final(self)@[path as int].place@ == data.place@,
            interned_below(old(self)@, old(self)@.len() as int, data.place@) ==> final(self)@ == old(
                self,
            )@,
            !interned_below(old(self)@, old(self)@.len() as int, data.place@) ==> final(self)@ == old(
                self,
            )@.push(data) && path == old(self)@.len(),
    {
        match self.place_to_path(&data.place) {
            Some(path) => {
                assert(interned_below(self@, self@.len() as int, data.place@));
                path
            },
            None => {
                let path = self.entries.len();
                assert forall|i: int, j: int|
                    0 <= i < j < self.entries@.push(data).len() implies (#[trigger] self.entries@.push(
                    data,
                )[i]).place@ != (#[trigger] self.entries@.push(data)[j]).place@ by {
                    if j == self.entries@.len() {
                        assert(self.entries@[i].place@ != data.place@);
                    }
                }
                self.entries.push(data);
                path
            },
        }
    }

    /// What the table holds of a path.
    pub fn get(&self, path: Path) -> (r: &PlaceData)
        requires
            path < self@.len(),
        ensures
            *r == self@[path as int],
    {
        &self.entries[path]
    }

    /// The place that a path stands for.
    pub fn path_to_place(&self, path: Path) -> (r: &Place)
        requires
            path < self@.len(),
        ensures
            *r == self@[path as int].place,
    {
        &self.entries[path].place
    }
}

/// In a table without repetition two paths that stand for the same place are
/// the same path.
pub proof fn lemma_paths_distinct(places: Seq<PlaceData>, a: Path, b: Path)
    requires
        injective(places),
        a < places.len(),
        b < places.len(),
        places[a as int].place@ == places[b as int].place@,
    ensures
        a == b,
{
    if a < b {
        assert(places[a as int].place@ != places[b as int].place@);
    } else if b < a {
        assert(places[b as int].place@ != places[a as int].place@);
    }
}

} // verus!
