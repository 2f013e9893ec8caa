use aquascope::output::{is_never_drop, is_never_write};
use aquascope::place::{PathTable, Place, PlaceData, PlaceElem, Pointer};

fn place(local: usize, projection: Vec<PlaceElem>) -> Place {
    Place { local, projection }
}

fn data(place: Place, declared_readonly: bool) -> PlaceData {
    PlaceData { place, declared_readonly, copyable: false, source_visible: true, name: None }
}

#[test]
fn place_from_local_has_no_projection() {
    let p = Place::from_local(4);
    assert_eq!(p.local, 4);
    assert!(p.projection.is_empty());
    assert!(!p.is_indirect());
}

#[test]
fn place_same_compares_local_and_projection() {
    let a = place(1, vec![PlaceElem::Field(0), PlaceElem::Deref(Pointer::MutRef)]);
    let b = place(1, vec![PlaceElem::Field(0), PlaceElem::Deref(Pointer::MutRef)]);
    let c = place(1, vec![PlaceElem::Field(0), PlaceElem::Deref(Pointer::SharedRef)]);
    let d = place(2, vec![PlaceElem::Field(0), PlaceElem::Deref(Pointer::MutRef)]);
    let e = place(1, vec![PlaceElem::Field(0)]);
    assert!(a.same(&b));
    assert!(!a.same(&c));
    assert!(!a.same(&d));
    assert!(!a.same(&e));
    assert!(!e.same(&a));
}

#[test]
fn place_clone_is_the_same_place() {
    let a = place(3, vec![PlaceElem::Deref(Pointer::Other), PlaceElem::Index(2)]);
    let b = a.clone();
    assert!(a.same(&b));
    assert_eq!(a, b);
}

#[test]
fn place_indirection() {
    assert!(place(0, vec![PlaceElem::Deref(Pointer::Other)]).is_indirect());
    assert!(place(0, vec![PlaceElem::Field(1), PlaceElem::Deref(Pointer::MutRef)]).is_indirect());
    assert!(!place(0, vec![PlaceElem::Field(1), PlaceElem::Downcast(2)]).is_indirect());
    assert!(place(0, vec![PlaceElem::Deref(Pointer::SharedRef)]).behind_shared_ref());
    assert!(!place(0, vec![PlaceElem::Deref(Pointer::MutRef)]).behind_shared_ref());
    assert!(!place(0, vec![PlaceElem::Deref(Pointer::Other)]).behind_shared_ref());
}

#[test]
fn interning_gives_each_place_one_path() {
    let mut table = PathTable::new();
    assert_eq!(table.len(), 0);
    let a = table.new_path(data(place(0, vec![]), false));
    let b = table.new_path(data(place(1, vec![]), true));
    let c = table.new_path(data(place(1, vec![PlaceElem::Deref(Pointer::MutRef)]), false));
    assert_eq!((a, b, c), (0, 1, 2));
    assert_eq!(table.len(), 3);
    let again = table.new_path(data(place(1, vec![]), false));
    assert_eq!(again, 1);
    assert_eq!(table.len(), 3);
    assert!(table.get(1).declared_readonly);
}

#[test]
fn interned_places_are_found_again() {
    let mut table = PathTable::new();
    table.new_path(data(place(0, vec![]), false));
    table.new_path(data(place(0, vec![PlaceElem::Field(1)]), false));
    assert_eq!(table.place_to_path(&place(0, vec![PlaceElem::Field(1)])), Some(1));
    assert_eq!(table.place_to_path(&place(0, vec![])), Some(0));
    assert_eq!(table.place_to_path(&place(0, vec![PlaceElem::Field(2)])), None);
    assert_eq!(table.place_to_path(&place(7, vec![])), None);
    assert!(table.path_to_place(1).same(&place(0, vec![PlaceElem::Field(1)])));
}

#[test]
fn interning_is_injective() {
    let mut table = PathTable::new();
    let places = vec![
        place(0, vec![]),
        place(0, vec![PlaceElem::Field(0)]),
        place(0, vec![PlaceElem::Field(1)]),
        place(1, vec![]),
        place(0, vec![PlaceElem::Field(0)]),
        place(1, vec![]),
    ];
    let paths: Vec<usize> = places.iter().map(|p| table.new_path(data(p.clone(), false))).collect();
    for i in 0..places.len() {
        for j in 0..places.len() {
            assert_eq!(paths[i] == paths[j], places[i].same(&places[j]));
        }
    }
}

#[test]
fn never_write_of_a_direct_read_only_binding() {
    assert!(is_never_write(&data(place(0, vec![]), true)));
    assert!(is_never_write(&data(place(0, vec![PlaceElem::Field(3)]), true)));
    assert!(!is_never_write(&data(place(0, vec![]), false)));
}

#[test]
fn never_write_behind_a_shared_reference() {
    let shared = vec![PlaceElem::Deref(Pointer::SharedRef)];
    assert!(is_never_write(&data(place(0, shared.clone()), false)));
    assert!(is_never_write(&data(place(0, shared), true)));
    let deep = vec![
        PlaceElem::Deref(Pointer::MutRef),
        PlaceElem::Field(0),
        PlaceElem::Deref(Pointer::SharedRef),
        PlaceElem::Field(1),
    ];
    assert!(is_never_write(&data(place(0, deep), false)));
}

#[test]
fn never_write_spares_exclusive_and_raw_pointers() {
    assert!(!is_never_write(&data(place(0, vec![PlaceElem::Deref(Pointer::MutRef)]), true)));
    assert!(!is_never_write(&data(place(0, vec![PlaceElem::Deref(Pointer::Other)]), true)));
    assert!(!is_never_write(&data(place(0, vec![PlaceElem::Deref(Pointer::Other)]), false)));
}

#[test]
fn never_drop_is_indirection() {
    assert!(is_never_drop(&data(place(0, vec![PlaceElem::Deref(Pointer::MutRef)]), false)));
    assert!(is_never_drop(&data(place(0, vec![PlaceElem::Deref(Pointer::Other)]), false)));
    assert!(!is_never_drop(&data(place(0, vec![]), true)));
    assert!(!is_never_drop(&data(place(0, vec![PlaceElem::Field(0)]), false)));
}
