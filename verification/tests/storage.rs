use synco::storage::{Marker, NullStorage};
use synco::{Entities, EntityId as Entity, Storage, VecStorage};

fn handles(n: usize) -> Vec<Entity> {
    let mut entities = Entities::new();
    (0..n).map(|_| entities.create()).collect()
}

#[test]
fn vec_storage_keeps_low_values_when_it_grows() {
    let e = handles(200);
    let mut s: VecStorage<String> = VecStorage::new();
    s.insert_unchecked(e[0], "zero".to_string());
    s.insert_unchecked(e[2], "two".to_string());
    s.insert_unchecked(e[199], "far".to_string());
    assert_eq!(s.get_unchecked(e[0]), "zero");
    assert_eq!(s.get_unchecked(e[2]), "two");
    assert_eq!(s.get_unchecked(e[199]), "far");
}

#[test]
fn vec_storage_remove_returns_the_value() {
    let e = handles(3);
    let mut s: VecStorage<u32> = VecStorage::default();
    s.insert_unchecked(e[1], 11);
    s.insert_unchecked(e[2], 22);
    assert_eq!(s.remove_unchecked(e[1]), 11);
    assert_eq!(*s.get_unchecked(e[2]), 22);
    s.insert_unchecked(e[1], 33);
    assert_eq!(*s.get_unchecked(e[1]), 33);
}

#[test]
fn vec_storage_insert_replaces_what_the_slot_held() {
    let e = handles(1);
    let mut s: VecStorage<u32> = VecStorage::new();
    s.insert_unchecked(e[0], 1);
    s.insert_unchecked(e[0], 2);
    assert_eq!(s.remove_unchecked(e[0]), 2);
}

#[test]
fn vec_storage_get_mut_changes_in_place() {
    let e = handles(2);
    let mut s: VecStorage<u32> = VecStorage::new();
    s.insert_unchecked(e[0], 5);
    s.insert_unchecked(e[1], 6);
    *s.get_unchecked_mut(e[1]) += 10;
    assert_eq!(*s.get_unchecked(e[0]), 5);
    assert_eq!(*s.get_unchecked(e[1]), 16);
}

#[test]
fn null_storage_gives_the_one_value() {
    let e = handles(2);
    let mut s: NullStorage<()> = NullStorage::new();
    s.insert_unchecked(e[0], ());
    s.insert_unchecked(e[1], ());
    assert_eq!(*s.get_unchecked(e[1]), ());
    assert_eq!(*s.get_unchecked_mut(e[0]), ());
    assert_eq!(s.remove_unchecked(e[0]), ());
    assert_eq!(<() as Marker>::mark(), ());
    let _again: NullStorage<()> = NullStorage::default();
}
