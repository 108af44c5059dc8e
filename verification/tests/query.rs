use synco::query::{acquire, combined_filter, conflicts, project, Fetched};
use synco::row::{places_of, Place};
use synco::{
    BitMask, Component, ComponentId, Ecs, Entities, EntityId, Error, Item, Pattern, Storage,
    VecStorage,
};

#[derive(Debug, Clone, Copy, PartialEq)]
struct Num(i32);

impl Component for Num {
    type Storage = VecStorage<Num>;
}

fn both(a: u64, b: u64) -> BitMask {
    BitMask::with(a).union(BitMask::with(b))
}

#[test]
fn term_filters() {
    let c = ComponentId::new(3);
    assert_eq!(Pattern::Read(c).comp_filter(4), Ok((BitMask::with(3), BitMask::with(3))));
    assert_eq!(Pattern::Write(c).comp_filter(4), Ok((BitMask::with(3), BitMask::with(3))));
    assert_eq!(Pattern::Not(c).comp_filter(4), Ok((BitMask::zero(), BitMask::with(3))));
    assert_eq!(Pattern::Entity.comp_filter(0), Ok((BitMask::zero(), BitMask::zero())));
    assert_eq!(Pattern::Read(c).comp_filter(3), Err(Error::MissingStorage));
    assert_eq!(Pattern::Write(c).comp_filter(3), Err(Error::MissingStorage));
    assert_eq!(Pattern::Not(c).comp_filter(0), Err(Error::MissingStorage));
    assert_eq!(Pattern::Read(ComponentId::new(63)).comp_filter(64).unwrap().0, BitMask::with(63));
}

#[test]
fn combined_filter_of_terms() {
    let a = ComponentId::new(0);
    let b = ComponentId::new(1);
    assert_eq!(combined_filter(&[], 0), Ok((BitMask::zero(), BitMask::zero())));
    assert_eq!(
        combined_filter(&[Pattern::Read(a), Pattern::Entity, Pattern::Write(b)], 2),
        Ok((both(0, 1), both(0, 1)))
    );
    assert_eq!(
        combined_filter(&[Pattern::Read(a), Pattern::Not(b)], 2),
        Ok((BitMask::with(0), both(0, 1)))
    );
    assert_eq!(
        combined_filter(&[Pattern::Not(a), Pattern::Not(a)], 2),
        Ok((BitMask::zero(), BitMask::with(0)))
    );
}

#[test]
fn combined_filter_reports_the_first_refusal() {
    let a = ComponentId::new(0);
    let far = ComponentId::new(9);
    assert_eq!(
        combined_filter(&[Pattern::Read(a), Pattern::Not(a), Pattern::Read(far)], 2),
        Err(Error::IncompatibleFilter)
    );
    assert_eq!(
        combined_filter(&[Pattern::Read(far), Pattern::Read(a), Pattern::Not(a)], 2),
        Err(Error::MissingStorage)
    );
}

#[test]
fn acquire_serves_the_terms_in_order() {
    let mut values = vec![10, 20, 30];
    let mut rows: Vec<Place<'_, i32>> = Vec::new();
    places_of(values.as_mut_slice(), &mut rows);
    let terms = [
        Pattern::Read(ComponentId::new(1)),
        Pattern::Not(ComponentId::new(2)),
        Pattern::Write(ComponentId::new(0)),
        Pattern::Entity,
        Pattern::Read(ComponentId::new(1)),
    ];
    assert!(!conflicts(&terms));
    let state = acquire(&mut rows, &terms);
    assert_eq!(state.len(), 5);
    let mut state = state.into_iter();
    match (state.next(), state.next(), state.next(), state.next(), state.next()) {
        (
            Some(Fetched::Read(r1)),
            Some(Fetched::Nothing),
            Some(Fetched::Write(w)),
            Some(Fetched::Entity),
            Some(Fetched::Read(r2)),
        ) => {
            assert_eq!((*r1, *r2, *w), (20, 20, 10));
            *w.0 = 11;
        }
        _ => panic!("unexpected state"),
    }
    assert!(matches!(rows[0], Place::Taken));
    assert!(matches!(rows[1], Place::Shared(_)));
    assert!(matches!(rows[2], Place::Free(_)));
    drop(rows);
    assert_eq!(values, vec![11, 20, 30]);
}

#[test]
fn conflicts_are_found_before_anything_is_borrowed() {
    let a = ComponentId::new(0);
    let b = ComponentId::new(1);
    assert!(conflicts(&[Pattern::Read(b), Pattern::Write(a), Pattern::Read(a)]));
    assert!(conflicts(&[Pattern::Write(a), Pattern::Read(a)]));
    assert!(conflicts(&[Pattern::Read(a), Pattern::Write(a)]));
    assert!(conflicts(&[Pattern::Write(a), Pattern::Write(a)]));
    assert!(conflicts(&[Pattern::Read(b), Pattern::Write(a), Pattern::Entity, Pattern::Write(a)]));
    assert!(!conflicts(&[Pattern::Read(a), Pattern::Read(a)]));
    assert!(!conflicts(&[Pattern::Write(a), Pattern::Write(b)]));
    assert!(!conflicts(&[Pattern::Write(a), Pattern::Read(b), Pattern::Read(b)]));
    assert!(!conflicts(&[Pattern::Write(a), Pattern::Not(a), Pattern::Entity]));
    assert!(!conflicts(&[]));
    assert_eq!(Pattern::Read(a).borrowed(), Some(0));
    assert_eq!(Pattern::Write(b).borrowed(), Some(1));
    assert_eq!(Pattern::Not(b).borrowed(), None);
    assert_eq!(Pattern::Entity.borrowed(), None);
    assert!(Pattern::Write(a).is_write());
    assert!(!Pattern::Read(a).is_write());
}

#[test]
fn project_reaches_into_the_storages() {
    let mut entities = Entities::new();
    let e0 = entities.create();
    let e1 = entities.create();
    let mut storages: Vec<VecStorage<Num>> = vec![VecStorage::new(), VecStorage::new()];
    storages[0].insert_unchecked(e0, Num(1));
    storages[0].insert_unchecked(e1, Num(2));
    storages[1].insert_unchecked(e1, Num(20));
    let mut rows = Vec::new();
    places_of(storages.as_mut_slice(), &mut rows);
    let terms = [
        Pattern::Entity,
        Pattern::Write(ComponentId::new(0)),
        Pattern::Read(ComponentId::new(1)),
        Pattern::Not(ComponentId::new(1)),
    ];
    let mut state = acquire(&mut rows, &terms);
    let mut out: Vec<Item<'_, Num>> = Vec::new();
    project(state.as_mut_slice(), e1, &mut out);
    assert_eq!(out.len(), 4);
    let mut out = out.into_iter();
    match (out.next(), out.next(), out.next(), out.next()) {
        (Some(Item::Entity(e)), Some(Item::Write(w)), Some(Item::Read(r)), Some(Item::Nothing)) => {
            assert_eq!(e, e1);
            assert_eq!((*w, *r), (Num(2), Num(20)));
            w.0 += r.0;
        }
        _ => panic!("unexpected items"),
    }
    drop(state);
    drop(rows);
    assert_eq!(*storages[0].get_unchecked(e1), Num(22));
    assert_eq!(*storages[0].get_unchecked(e0), Num(1));
}

#[test]
fn query_walk_gives_each_selected_entity_once() {
    let mut ecs = Ecs::<Num>::new().with_storage().with_storage();
    let a = ComponentId::new(0);
    let b = ComponentId::new(1);
    let mut expected: Vec<(EntityId, i32)> = Vec::new();
    for i in 0..20 {
        let mut builder = ecs.create();
        if i % 2 == 0 {
            builder.insert(a, Num(i));
        }
        if i % 3 == 0 {
            builder.insert(b, Num(-i));
        }
        if i % 2 == 0 && i % 3 != 0 {
            expected.push((builder.id(), i));
        }
    }
    let mut q = ecs.query(&[Pattern::Entity, Pattern::Read(a), Pattern::Not(b)]);
    for _ in 0..2 {
        let mut seen = Vec::new();
        let mut it = q.iter();
        while let Some(items) = it.next() {
            match (&items[0], &items[1], &items[2]) {
                (Item::Entity(e), Item::Read(n), Item::Nothing) => seen.push((*e, n.0)),
                _ => panic!("unexpected items"),
            }
        }
        assert_eq!(seen, expected);
    }
}

#[test]
fn storage_guards() {
    let mut ecs = Ecs::<Num>::new().with_storage();
    let a = ComponentId::new(0);
    let e = ecs.create().with(a, Num(4)).id();
    {
        let guard = ecs.read_storage(a);
        assert!(guard.entities.entry(e).is_some());
        assert_eq!(*guard.storage.get_unchecked(e), Num(4));
    }
    {
        let mut guard = ecs.write_storage(a);
        guard.storage.get_unchecked_mut(e).0 = 5;
        let other = guard.entities.create();
        assert_eq!(other.idx(), 1);
    }
    assert_eq!(ecs.kinds(), 1);
    assert_eq!(ecs.entities().len(), 2);
    assert_eq!(ecs.remove_comp(e, a), Some(Num(5)));
}
