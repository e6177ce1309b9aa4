use replication::table::{BindError, IdentityTable};
use replication::world::{is_alive, EntityHandle};
use specs::{World, WorldExt};

fn handle(index: u32, generation: i32) -> EntityHandle {
    EntityHandle { index, generation }
}

#[test]
fn new_table_is_empty() {
    let table = IdentityTable::new();
    assert_eq!(table.lookup(0), None);
    assert!(!table.is_bound(0));
    assert_eq!(table.holder(handle(0, 1)), None);
}

#[test]
fn bind_then_lookup_both_ways() {
    let mut table = IdentityTable::new();
    assert_eq!(table.bind(10, handle(3, 1)), Ok(()));
    assert_eq!(table.lookup(10), Some(handle(3, 1)));
    assert!(table.is_bound(10));
    assert_eq!(table.holder(handle(3, 1)), Some(10));
    assert_eq!(table.holder(handle(3, 2)), None);
    assert_eq!(table.lookup(11), None);
}

#[test]
fn bind_refuses_a_bound_key() {
    let mut table = IdentityTable::new();
    assert_eq!(table.bind(10, handle(3, 1)), Ok(()));
    assert_eq!(table.bind(10, handle(4, 1)), Err(BindError::KeyBound));
    assert_eq!(table.lookup(10), Some(handle(3, 1)));
    assert_eq!(table.holder(handle(4, 1)), None);
}

#[test]
fn bind_refuses_a_bound_handle() {
    let mut table = IdentityTable::new();
    assert_eq!(table.bind(10, handle(3, 1)), Ok(()));
    assert_eq!(table.bind(11, handle(3, 1)), Err(BindError::HandleBound));
    assert_eq!(table.lookup(11), None);
    assert_eq!(table.holder(handle(3, 1)), Some(10));
}

#[test]
fn bound_key_is_reported_before_bound_handle() {
    let mut table = IdentityTable::new();
    assert_eq!(table.bind(10, handle(3, 1)), Ok(()));
    assert_eq!(table.bind(10, handle(3, 1)), Err(BindError::KeyBound));
}

#[test]
fn same_slot_in_another_generation_is_another_handle() {
    let mut table = IdentityTable::new();
    assert_eq!(table.bind(10, handle(3, 1)), Ok(()));
    assert_eq!(table.bind(11, handle(3, 2)), Ok(()));
    assert_eq!(table.holder(handle(3, 1)), Some(10));
    assert_eq!(table.holder(handle(3, 2)), Some(11));
}

#[test]
fn extreme_handles_are_kept_apart() {
    let mut table = IdentityTable::new();
    assert_eq!(table.bind(1, handle(u32::MAX, i32::MAX)), Ok(()));
    assert_eq!(table.bind(2, handle(u32::MAX, i32::MIN)), Ok(()));
    assert_eq!(table.bind(3, handle(0, i32::MIN)), Ok(()));
    assert_eq!(table.bind(4, handle(0, i32::MAX)), Ok(()));
    assert_eq!(table.bind(5, handle(1, i32::MIN)), Ok(()));
    assert_eq!(table.holder(handle(u32::MAX, i32::MAX)), Some(1));
    assert_eq!(table.holder(handle(u32::MAX, i32::MIN)), Some(2));
    assert_eq!(table.holder(handle(0, i32::MIN)), Some(3));
    assert_eq!(table.holder(handle(0, i32::MAX)), Some(4));
    assert_eq!(table.holder(handle(1, i32::MIN)), Some(5));
}

#[test]
fn bind_overwrite_replaces_the_handle_of_a_key() {
    let mut table = IdentityTable::new();
    assert_eq!(table.bind_overwrite(7, handle(0, 1)), Ok(()));
    assert_eq!(table.bind_overwrite(7, handle(1, 1)), Ok(()));
    assert_eq!(table.lookup(7), Some(handle(1, 1)));
    assert_eq!(table.holder(handle(0, 1)), None);
    assert_eq!(table.holder(handle(1, 1)), Some(7));
}

#[test]
fn bind_overwrite_with_the_same_pair_changes_nothing() {
    let mut table = IdentityTable::new();
    assert_eq!(table.bind_overwrite(7, handle(0, 1)), Ok(()));
    assert_eq!(table.bind_overwrite(7, handle(0, 1)), Ok(()));
    assert_eq!(table.lookup(7), Some(handle(0, 1)));
    assert_eq!(table.holder(handle(0, 1)), Some(7));
}

#[test]
fn bind_overwrite_refuses_the_handle_of_another_key() {
    let mut table = IdentityTable::new();
    assert_eq!(table.bind_overwrite(7, handle(0, 1)), Ok(()));
    assert_eq!(table.bind_overwrite(8, handle(0, 1)), Err(BindError::HandleBound));
    assert_eq!(table.lookup(8), None);
    assert_eq!(table.lookup(7), Some(handle(0, 1)));
}

#[test]
fn unbind_frees_key_and_handle() {
    let mut table = IdentityTable::new();
    assert_eq!(table.bind(10, handle(3, 1)), Ok(()));
    assert_eq!(table.unbind(10), Some(handle(3, 1)));
    assert_eq!(table.unbind(10), None);
    assert_eq!(table.lookup(10), None);
    assert_eq!(table.holder(handle(3, 1)), None);
    assert_eq!(table.bind(11, handle(3, 1)), Ok(()));
}

#[test]
fn resolve_checks_liveness_each_time() {
    let mut world = World::new();
    let entity = world.entities().create();
    let h = handle(entity.id(), entity.gen().id());
    let mut table = IdentityTable::new();
    assert_eq!(table.bind(42, h), Ok(()));
    assert_eq!(table.resolve(42, &world.entities()), Some(h));
    assert_eq!(table.resolve(43, &world.entities()), None);

    world.entities().delete(entity).unwrap();
    world.maintain();
    assert_eq!(table.resolve(42, &world.entities()), None);
    assert_eq!(table.lookup(42), Some(h));

    let reborn = world.entities().create();
    assert_eq!(reborn.id(), entity.id());
    assert_ne!(reborn.gen().id(), entity.gen().id());
    assert_eq!(table.resolve(42, &world.entities()), None);
}

#[test]
fn is_alive_agrees_with_the_world() {
    let mut world = World::new();
    let first = world.entities().create();
    let second = world.entities().create();
    world.maintain();
    let h1 = handle(first.id(), first.gen().id());
    let h2 = handle(second.id(), second.gen().id());
    assert!(is_alive(&world.entities(), h1));
    assert!(is_alive(&world.entities(), h2));
    assert!(!is_alive(&world.entities(), handle(first.id(), first.gen().id() + 1)));

    world.entities().delete(first).unwrap();
    world.maintain();
    assert_eq!(world.entities().is_alive(first), false);
    assert!(!is_alive(&world.entities(), h1));
    assert!(is_alive(&world.entities(), h2));
    let dead_generation = world.entities().entity(first.id()).gen().id();
    assert!(dead_generation < 0);
    assert!(!is_alive(&world.entities(), handle(first.id(), dead_generation)));
}

#[test]
fn authoritative_id_is_the_slot() {
    assert_eq!(handle(7, 3).authoritative_id(), 7);
}

#[test]
fn release_drops_the_binding_that_refers_to_a_destroyed_entity() {
    let mut table = IdentityTable::new();
    assert_eq!(table.bind(10, handle(3, 1)), Ok(()));
    assert_eq!(table.bind(11, handle(4, 1)), Ok(()));
    assert_eq!(table.release(handle(3, 1)), Some(10));
    assert_eq!(table.release(handle(3, 1)), None);
    assert_eq!(table.lookup(10), None);
    assert_eq!(table.lookup(11), Some(handle(4, 1)));
    assert_eq!(table.release(handle(9, 9)), None);
}

#[test]
fn default_table_is_empty() {
    let table = IdentityTable::default();
    assert!(!table.is_bound(0));
    assert_eq!(table.holder(handle(0, 1)), None);
}

#[test]
fn a_slot_that_no_world_can_have_holds_nothing_alive() {
    let world = World::new();
    world.entities().create();
    assert!(is_alive(&world.entities(), handle(0, 1)));
    assert!(!is_alive(&world.entities(), handle(u32::MAX, 1)));
    assert!(!is_alive(&world.entities(), handle(1 << 24, 1)));
    assert!(!is_alive(&world.entities(), handle(0, 0)));
    assert!(!is_alive(&world.entities(), handle(0, -1)));
    assert!(!is_alive(&world.entities(), handle(0, 2)));
}
