use synco::{BitMask, Entities, EntityId as Entity};

fn walk(entities: &Entities, filter: &(BitMask, BitMask)) -> Vec<Entity> {
    let mut it = entities.iter_filter(filter);
    let mut out = Vec::new();
    while let Some(e) = it.next() {
        out.push(e);
    }
    out
}

const ANY: fn() -> (BitMask, BitMask) = || (BitMask::zero(), BitMask::zero());

#[test]
fn create_appends_slots_of_generation_zero() {
    let mut entities = Entities::new();
    let a = entities.create();
    let b = entities.create();
    let c = entities.create();
    assert_eq!((a.idx(), a.gen()), (0, 0));
    assert_eq!((b.idx(), b.gen()), (1, 0));
    assert_eq!((c.idx(), c.gen()), (2, 0));
    assert_eq!(entities.len(), 3);
}

#[test]
fn deleted_slot_is_recycled_with_next_generation() {
    let mut entities = Entities::new();
    let a = entities.create();
    let b = entities.create();
    entities.delete(a);
    assert!(entities.entry(a).is_none());
    let c = entities.create();
    assert_eq!(c.idx(), a.idx());
    assert_eq!(c.gen(), a.gen() + 1);
    assert!(entities.entry(a).is_none());
    assert!(entities.entry(c).is_some());
    assert!(entities.entry(b).is_some());
    assert_eq!(entities.len(), 2);
}

#[test]
fn create_reuses_the_first_free_slot() {
    let mut entities = Entities::new();
    let a = entities.create();
    let b = entities.create();
    let c = entities.create();
    entities.delete(c);
    entities.delete(b);
    let d = entities.create();
    assert_eq!((d.idx(), d.gen()), (1, 1));
    let e = entities.create();
    assert_eq!((e.idx(), e.gen()), (2, 1));
    let f = entities.create();
    assert_eq!((f.idx(), f.gen()), (3, 0));
    assert!(entities.entry(a).is_some());
}

#[test]
fn delete_of_a_stale_handle_changes_nothing() {
    let mut entities = Entities::new();
    let a = entities.create();
    entities.delete(a);
    let b = entities.create();
    entities.delete(a);
    assert!(entities.entry(b).is_some());
    entities.delete(b);
    entities.delete(b);
    assert!(entities.entry(b).is_none());
    let c = entities.create();
    assert_eq!((c.idx(), c.gen()), (0, 2));
}

#[test]
fn delete_of_a_handle_from_a_larger_registry_changes_nothing() {
    let mut big = Entities::new();
    big.create();
    let far = big.create();
    let mut small = Entities::new();
    let a = small.create();
    small.delete(far);
    assert!(small.entry(far).is_none());
    assert!(small.entry(a).is_some());
    assert_eq!(small.len(), 1);
}

#[test]
fn entry_gives_the_slot_of_a_live_entity() {
    let mut entities = Entities::default();
    let a = entities.create();
    let entry = entities.entry(a).unwrap();
    assert_eq!(entry.gen(), 0);
    assert!(entry.is_filled());
    assert_eq!(*entry.comp_mask(), BitMask::zero());
    assert_eq!(entities.comp_mask(a), Some(&BitMask::zero()));
    entities.delete(a);
    assert_eq!(entities.comp_mask(a), None);
}

#[test]
fn filtered_walk_yields_live_entities_in_slot_order() {
    let mut entities = Entities::new();
    let a = entities.create();
    let b = entities.create();
    let c = entities.create();
    entities.delete(b);
    assert_eq!(walk(&entities, &ANY()), vec![a, c]);
    let d = entities.create();
    assert_eq!(walk(&entities, &ANY()), vec![a, d, c]);
    assert_eq!(walk(&entities, &ANY()), vec![a, d, c]);
}

#[test]
fn filtered_walk_of_nothing_is_empty() {
    let entities = Entities::new();
    assert_eq!(walk(&entities, &ANY()), Vec::<Entity>::new());
    let mut it = entities.iter_filter(&ANY());
    assert_eq!(it.next(), None);
    assert_eq!(it.next(), None);
}

#[test]
fn filtered_walk_leaves_out_masks_that_do_not_match() {
    let mut entities = Entities::new();
    let _a = entities.create();
    let _b = entities.create();
    let needs_0 = (BitMask::with(0), BitMask::with(0));
    let lacks_0 = (BitMask::zero(), BitMask::with(0));
    assert_eq!(walk(&entities, &needs_0), Vec::<Entity>::new());
    assert_eq!(walk(&entities, &lacks_0).len(), 2);
}
