use synco::query::{combined_filter, conflicts, Item, Pattern};
use synco::{Component, ComponentId, Ecs, EntityId, Error, VecStorage};

#[derive(Debug, Clone, Copy, PartialEq)]
enum Comp {
    Pos(f64, f64),
    Vel(f64, f64),
    Tag,
}

impl Component for Comp {
    type Storage = VecStorage<Comp>;
}

fn selected(ecs: &mut Ecs<Comp>, terms: &[Pattern]) -> Vec<EntityId> {
    assert!(combined_filter(terms, ecs.kinds()).is_ok());
    assert!(!conflicts(terms));
    let mut q = ecs.query(terms);
    let mut it = q.iter();
    let mut out = Vec::new();
    while let Some(items) = it.next() {
        for item in items {
            if let Item::Entity(e) = item {
                out.push(e);
            }
        }
    }
    out
}

#[test]
fn storages_get_the_next_bit() {
    let mut ecs = Ecs::<Comp>::new();
    assert_eq!(ecs.kinds(), 0);
    assert_eq!(ecs.insert_storage(), ComponentId::new(0));
    assert_eq!(ecs.insert_storage(), ComponentId::new(1));
    assert_eq!(ecs.insert_storage().id, 2);
    assert_eq!(ecs.kinds(), 3);
}

#[test]
fn sixty_four_storages_fill_the_mask() {
    let mut ecs = Ecs::<Comp>::default();
    for i in 0..64 {
        assert!(ecs.kinds() < 64);
        assert_eq!(ecs.insert_storage(), ComponentId::new(i));
    }
    assert_eq!(ecs.kinds(), 64);
    let last = ComponentId::new(63);
    let e = ecs.create().with(last, Comp::Tag).id();
    assert!(ecs.entities().comp_mask(e).unwrap().bit_is_set(63));
    assert_eq!(ecs.remove_comp(e, last), Some(Comp::Tag));
}

#[test]
fn insert_then_remove_then_insert() {
    let mut ecs = Ecs::<Comp>::new().with_storage().with_storage();
    let pos = ComponentId::new(0);
    let vel = ComponentId::new(1);
    let e = ecs.create().id();
    assert_eq!(ecs.insert_comp(e, pos, Comp::Pos(1.0, 2.0)), None);
    assert_eq!(ecs.insert_comp(e, pos, Comp::Pos(3.0, 4.0)), Some(Comp::Pos(1.0, 2.0)));
    assert!(ecs.entities().comp_mask(e).unwrap().bit_is_set(0));
    assert!(!ecs.entities().comp_mask(e).unwrap().bit_is_set(1));
    assert_eq!(selected(&mut ecs, &[Pattern::Entity, Pattern::Read(pos)]), vec![e]);

    assert_eq!(ecs.remove_comp(e, pos), Some(Comp::Pos(3.0, 4.0)));
    assert!(!ecs.entities().comp_mask(e).unwrap().bit_is_set(0));
    assert_eq!(ecs.remove_comp(e, pos), None);
    assert_eq!(ecs.remove_comp(e, vel), None);
    assert!(ecs.query(&[Pattern::Read(pos)]).get(e).is_none());
    assert_eq!(selected(&mut ecs, &[Pattern::Entity, Pattern::Read(pos)]), vec![]);

    assert_eq!(ecs.insert_comp(e, pos, Comp::Pos(5.0, 6.0)), None);
    let mut q = ecs.query(&[Pattern::Read(pos)]);
    let items = q.get(e).unwrap();
    assert_eq!(items.len(), 1);
    assert!(matches!(items[0], Item::Read(&Comp::Pos(x, y)) if x == 5.0 && y == 6.0));
}

#[test]
fn what_a_caller_tests_before_it_asks() {
    let mut ecs = Ecs::<Comp>::new();
    let pos = ecs.insert_storage();
    let nowhere = ComponentId::new(1);
    let e = ecs.create().id();
    assert!(pos.id < ecs.kinds());
    assert!(nowhere.id >= ecs.kinds());
    assert_eq!(combined_filter(&[Pattern::Read(nowhere)], ecs.kinds()), Err(Error::MissingStorage));
    assert!(ecs.entities().entry(e).is_some());
    ecs.delete(e);
    assert!(ecs.entities().entry(e).is_none());
    assert!(ecs.entities().can_create());
}

#[test]
fn recycled_slot_starts_without_components() {
    let mut ecs = Ecs::<Comp>::new();
    let pos = ecs.insert_storage();
    let a = ecs.create().with(pos, Comp::Pos(1.0, 1.0)).id();
    ecs.delete(a);
    ecs.delete(a);
    let b = ecs.create().id();
    assert_eq!((b.idx(), b.gen()), (a.idx(), a.gen() + 1));
    assert_eq!(selected(&mut ecs, &[Pattern::Entity, Pattern::Read(pos)]), vec![]);
    assert_eq!(selected(&mut ecs, &[Pattern::Entity, Pattern::Not(pos)]), vec![b]);
    assert!(ecs.entities().entry(a).is_none());
    assert_eq!(ecs.insert_comp(b, pos, Comp::Pos(2.0, 2.0)), None);
    assert_eq!(ecs.remove_comp(b, pos), Some(Comp::Pos(2.0, 2.0)));
}

#[test]
fn builder_inserts_and_removes() {
    let mut ecs = Ecs::<Comp>::new().with_storage().with_storage();
    let pos = ComponentId::new(0);
    let vel = ComponentId::new(1);
    let mut b = ecs.create().with(pos, Comp::Pos(0.0, 0.0));
    b.insert(vel, Comp::Vel(1.0, 1.0));
    assert_eq!(b.remove(pos), Some(Comp::Pos(0.0, 0.0)));
    assert_eq!(b.remove(pos), None);
    let e = b.id();
    let mut again = ecs.modify(e);
    assert_eq!(again.id(), e);
    assert_eq!(again.remove(vel), Some(Comp::Vel(1.0, 1.0)));
}

#[test]
fn queries_select_by_presence_and_absence() {
    let mut ecs = Ecs::<Comp>::new().with_storage().with_storage();
    let a = ComponentId::new(0);
    let b = ComponentId::new(1);
    let none = ecs.create().id();
    let only_a = ecs.create().with(a, Comp::Tag).id();
    let only_b = ecs.create().with(b, Comp::Tag).id();
    let both = ecs.create().with(a, Comp::Tag).with(b, Comp::Tag).id();
    let dead = ecs.create().with(a, Comp::Tag).with(b, Comp::Tag).id();
    ecs.delete(dead);

    let id = Pattern::Entity;
    assert_eq!(selected(&mut ecs, &[id, Pattern::Read(a), Pattern::Read(b)]), vec![both]);
    assert_eq!(selected(&mut ecs, &[id, Pattern::Read(a), Pattern::Not(b)]), vec![only_a]);
    assert_eq!(selected(&mut ecs, &[id, Pattern::Not(a), Pattern::Read(b)]), vec![only_b]);
    assert_eq!(selected(&mut ecs, &[id, Pattern::Not(a), Pattern::Not(b)]), vec![none]);
    assert_eq!(selected(&mut ecs, &[id, Pattern::Write(a)]), vec![only_a, both]);
    assert_eq!(selected(&mut ecs, &[id]), vec![none, only_a, only_b, both]);
    assert_eq!(selected(&mut ecs, &[]), vec![]);
}

#[test]
fn contradicting_terms_make_no_requirement() {
    let mut ecs = Ecs::<Comp>::new().with_storage().with_storage();
    let a = ComponentId::new(0);
    let b = ComponentId::new(1);
    let refused = Err(Error::IncompatibleFilter);
    assert_eq!(combined_filter(&[Pattern::Write(a), Pattern::Not(a)], ecs.kinds()), refused);
    assert_eq!(
        combined_filter(&[Pattern::Not(a), Pattern::Read(b), Pattern::Read(a)], ecs.kinds()),
        refused
    );
    ecs.create().with(a, Comp::Tag);
    assert_eq!(combined_filter(&[Pattern::Write(a), Pattern::Not(a)], ecs.kinds()), refused);
    assert!(combined_filter(&[Pattern::Write(a), Pattern::Not(b)], ecs.kinds()).is_ok());
    assert_eq!(selected(&mut ecs, &[Pattern::Entity, Pattern::Write(a), Pattern::Not(b)]).len(), 1);
}

#[test]
fn terms_that_share_a_storage() {
    let mut ecs = Ecs::<Comp>::new().with_storage().with_storage();
    let a = ComponentId::new(0);
    let b = ComponentId::new(1);
    let e = ecs.create().with(a, Comp::Pos(1.0, 1.0)).with(b, Comp::Tag).id();
    assert!(conflicts(&[Pattern::Write(a), Pattern::Read(a)]));
    assert!(conflicts(&[Pattern::Read(a), Pattern::Write(a)]));
    assert!(conflicts(&[Pattern::Write(a), Pattern::Write(a)]));
    let shared = [Pattern::Read(a), Pattern::Read(a), Pattern::Write(b)];
    assert!(!conflicts(&shared));
    let mut q = ecs.query(&shared);
    let items = q.get(e).unwrap();
    assert!(matches!(
        (&items[0], &items[1], &items[2]),
        (Item::Read(Comp::Pos(..)), Item::Read(Comp::Pos(..)), Item::Write(Comp::Tag))
    ));
}

#[test]
fn point_lookup_checks_the_entity_again() {
    let mut ecs = Ecs::<Comp>::new().with_storage();
    let a = ComponentId::new(0);
    let with = ecs.create().with(a, Comp::Pos(1.0, 2.0)).id();
    let without = ecs.create().id();
    let gone = ecs.create().with(a, Comp::Tag).id();
    ecs.delete(gone);
    let mut q = ecs.query(&[Pattern::Write(a), Pattern::Entity]);
    assert!(q.get(without).is_none());
    assert!(q.get(gone).is_none());
    let mut items = q.get(with).unwrap().into_iter();
    match (items.next(), items.next(), items.next()) {
        (Some(Item::Write(c)), Some(Item::Entity(e)), None) => {
            assert_eq!(e, with);
            *c = Comp::Pos(9.0, 9.0);
        }
        _ => panic!("unexpected items"),
    }
    drop(q);
    assert_eq!(ecs.remove_comp(with, a), Some(Comp::Pos(9.0, 9.0)));
}

#[test]
fn read_only_query_can_be_cloned() {
    let mut ecs = Ecs::<Comp>::new().with_storage().with_storage();
    let a = ComponentId::new(0);
    let b = ComponentId::new(1);
    let e = ecs.create().with(a, Comp::Pos(1.0, 1.0)).with(b, Comp::Vel(2.0, 2.0)).id();
    assert!(ecs.query(&[Pattern::Write(a), Pattern::Read(b)]).try_clone().is_none());
    assert!(ecs.query(&[Pattern::Read(a), Pattern::Not(b)]).get(e).is_none());
    let mut q = ecs.query(&[Pattern::Read(a), Pattern::Read(b)]);
    let mut copy = q.try_clone().unwrap();
    let mut outer = q.iter();
    let mut pairs = 0;
    while let Some(x) = outer.next() {
        let mut inner = copy.iter();
        while let Some(y) = inner.next() {
            assert!(matches!((&x[0], &y[1]), (Item::Read(Comp::Pos(..)), Item::Read(Comp::Vel(..)))));
            pairs += 1;
        }
    }
    assert_eq!(pairs, 1);
}

#[test]
fn run_hands_the_query_to_the_system() {
    let mut ecs = Ecs::<Comp>::new().with_storage();
    let a = ComponentId::new(0);
    ecs.create().with(a, Comp::Tag);
    ecs.create();
    ecs.create().with(a, Comp::Tag);
    let count = ecs.run(&[Pattern::Read(a)], |mut q| {
        let mut n = 0;
        let mut it = q.iter();
        while it.next().is_some() {
            n += 1;
        }
        n
    });
    assert_eq!(count, 2);
    ecs.run(&[Pattern::Write(a)], |mut q| {
        let mut it = q.iter();
        while let Some(mut items) = it.next() {
            if let Some(Item::Write(c)) = items.pop() {
                *c = Comp::Pos(1.0, 1.0);
            }
        }
    });
    let moved = ecs.run(&[Pattern::Read(a)], |mut q| {
        let mut n = 0;
        let mut it = q.iter();
        while let Some(items) = it.next() {
            if matches!(items[0], Item::Read(Comp::Pos(..))) {
                n += 1;
            }
        }
        n
    });
    assert_eq!(moved, 2);
    assert_eq!(ecs.entities().len(), 3);
}

#[test]
fn with_setup_applies_the_function() {
    let ecs = Ecs::<Comp>::new().with_setup(|ecs| ecs.with_storage().with_storage());
    let mut ecs = ecs;
    assert_eq!(ecs.insert_storage(), ComponentId::new(2));
}

#[test]
fn ten_ticks_of_motion() {
    struct DeltaTime(f64);
    let mut ecs = Ecs::<Comp>::new().with_resource(DeltaTime(1.0)).with_storage().with_storage();
    let pos = ComponentId::new(0);
    let vel = ComponentId::new(1);
    let velocities = [(1.0, 2.0), (-3.0, 0.5), (0.0, 7.0)];
    let mut moving = Vec::new();
    for (vx, vy) in velocities {
        moving.push(ecs.create().with(pos, Comp::Pos(0.0, 0.0)).with(vel, Comp::Vel(vx, vy)).id());
    }
    let still = ecs.create().with(pos, Comp::Pos(0.0, 0.0)).id();
    let bare = ecs.create().id();

    for _ in 0..10 {
        let dt = ecs.read_resource::<DeltaTime>().unwrap().0 .0;
        let seen = ecs.run(&[Pattern::Write(pos), Pattern::Read(vel)], |mut q| {
            let mut it = q.iter();
            let mut seen = 0;
            while let Some(items) = it.next() {
                let mut items = items.into_iter();
                match (items.next(), items.next()) {
                    (Some(Item::Write(p)), Some(Item::Read(v))) => {
                        if let (Comp::Pos(x, y), Comp::Vel(vx, vy)) = (*p, *v) {
                            *p = Comp::Pos(x + vx * dt, y + vy * dt);
                        }
                    }
                    _ => panic!("unexpected items"),
                }
                seen += 1;
            }
            seen
        });
        assert_eq!(seen, 3);
    }

    for (e, (vx, vy)) in moving.iter().zip(velocities) {
        assert_eq!(ecs.remove_comp(*e, pos), Some(Comp::Pos(10.0 * vx, 10.0 * vy)));
        assert_eq!(ecs.remove_comp(*e, vel), Some(Comp::Vel(vx, vy)));
    }
    assert_eq!(ecs.remove_comp(still, pos), Some(Comp::Pos(0.0, 0.0)));
    assert!(ecs.entities().entry(bare).is_some());
    assert_eq!(ecs.entities().comp_mask(bare).map(|m| (0..2).any(|k| m.bit_is_set(k))), Some(false));
    assert_eq!(ecs.remove_comp(bare, pos), None);
    assert_eq!(ecs.remove_comp(bare, vel), None);
    assert_eq!(ecs.entities().len(), 5);
}
