use std::alloc::Layout;
use std::any::TypeId;

use evenio::access::{Access, ComponentAccess, InitError};
use evenio::archetype::ArchetypeIdx;
use evenio::component::{ComponentDescriptor, ComponentId, ComponentIdx, DropFn};
use evenio::derive::{derive_query, Data, DeriveInput, Fields};
use evenio::entity::{EntityId, EntityLocation};
use evenio::event::{EventId, EventKind};
use evenio::handler::{HandlerConfig, HandlerId};
use evenio::mutability::Mutability;
use evenio::query::{FieldQuery, Query};
use evenio::slot_map::Key;
use evenio::world::World;

struct A;
struct B;
struct C;

fn register<T: 'static>(world: &mut World<i64>, name: &str) -> ComponentId {
    assert!(world.components().has_room());
    world
        .add_component(ComponentDescriptor {
            name: name.to_string(),
            type_id: Some(TypeId::of::<T>()),
            layout: Layout::new::<i64>(),
            drop: DropFn(None),
            mutability: Mutability::Mutable,
        })
        .0
}

fn entity(world: &mut World<i64>, values: &[(ComponentId, i64)]) -> EntityId {
    assert!(world.can_spawn());
    let e = world.spawn();
    for &(c, v) in values {
        assert!(world.archetypes().has_room());
        assert!(world.insert(e, c, v));
    }
    e
}

fn event(world: &mut World<i64>, kind: EventKind) -> Option<EventId> {
    assert!(world.can_add_event());
    world.add_event(kind)
}

fn handler(
    world: &mut World<i64>,
    event: EventId,
    fields: Vec<FieldQuery>,
) -> Result<HandlerId, InitError> {
    assert!(world.can_add_handler());
    world.add_handler(HandlerConfig { event, query: Query::new(fields) })
}

/// The composition of an archetype includes a component exactly when the
/// member-of set of the component names the archetype.
fn assert_membership(world: &World<i64>) {
    let archetypes = world.archetypes();
    for info in world.components().iter() {
        let c = info.id().index();
        for a in 0..archetypes.slot_count() {
            let idx = ArchetypeIdx(a as u32);
            let includes = archetypes
                .get(idx)
                .map_or(false, |arch| arch.component_indices().contains(&c));
            assert_eq!(includes, info.member_of().contains(idx));
        }
        for i in 0..info.member_of().len() {
            let idx = info.member_of().get_index(i).unwrap();
            assert!((idx.0 as usize) < archetypes.slot_count());
        }
    }
    for a in 0..archetypes.slot_count() {
        if let Some(arch) = archetypes.get(ArchetypeIdx(a as u32)) {
            assert_eq!(arch.index(), ArchetypeIdx(a as u32));
            for c in arch.component_indices() {
                assert!(world.components().get_by_index(*c).is_some());
            }
        }
    }
}

#[test]
fn a_new_world_has_only_the_empty_archetype() {
    let world: World<i64> = World::new();
    assert_eq!(world.archetypes().len(), 1);
    assert_eq!(world.archetypes().slot_count(), 1);
    let empty = world.archetypes().empty();
    assert_eq!(empty.index(), ArchetypeIdx::empty());
    assert!(empty.component_indices().is_empty());
    assert_eq!(empty.entity_count(), 0);
    assert!(world.components().iter().is_empty());
    assert!(world.entities().ids().is_empty());
    assert!(world.handlers().ids().is_empty());
}

#[test]
fn spawned_entities_live_in_the_empty_archetype() {
    let mut world: World<i64> = World::new();
    let e1 = entity(&mut world, &[]);
    let e2 = entity(&mut world, &[]);
    assert_eq!(e1, EntityId(Key::new(0, 1).unwrap()));
    assert_eq!(e2, EntityId(Key::new(1, 1).unwrap()));
    assert_eq!(
        world.entities().get(e1),
        Some(EntityLocation { archetype: ArchetypeIdx(0), row: 0 })
    );
    assert_eq!(
        world.entities().get(e2),
        Some(EntityLocation { archetype: ArchetypeIdx(0), row: 1 })
    );
    assert_eq!(world.archetypes().empty().entity_at(1), Some(e2));
    assert_eq!(world.archetypes().len(), 1);
}

#[test]
fn insert_moves_the_entity_and_keeps_its_other_values() {
    let mut world: World<i64> = World::new();
    let a = register::<A>(&mut world, "A");
    let b = register::<B>(&mut world, "B");
    let c = register::<C>(&mut world, "C");
    let e = entity(&mut world, &[(b, 20)]);
    assert_membership(&world);
    assert!(world.insert(e, c, 30));
    assert_membership(&world);
    assert!(world.insert(e, a, 10));
    assert_membership(&world);
    assert_eq!(world.get(e, a), Some(&10));
    assert_eq!(world.get(e, b), Some(&20));
    assert_eq!(world.get(e, c), Some(&30));
    let loc = world.entities().get(e).unwrap();
    let arch = world.archetypes().get(loc.archetype).unwrap();
    assert_eq!(
        arch.component_indices(),
        &vec![ComponentIdx(0), ComponentIdx(1), ComponentIdx(2)]
    );
    assert_eq!(arch.get(loc.row, a.index()), Some(&10));
    assert_eq!(arch.get(loc.row, c.index()), Some(&30));
    assert_eq!(arch.column_of(b.index()), Some(1));
    assert_eq!(world.archetypes().len(), 4);
}

#[test]
fn insert_replaces_the_value_of_a_component_that_the_entity_has() {
    let mut world: World<i64> = World::new();
    let a = register::<A>(&mut world, "A");
    let b = register::<B>(&mut world, "B");
    let e1 = entity(&mut world, &[(a, 1), (b, 2)]);
    let e2 = entity(&mut world, &[(a, 3), (b, 4)]);
    let archetypes = world.archetypes().len();
    assert!(world.insert(e1, b, 5));
    assert_eq!(world.get(e1, a), Some(&1));
    assert_eq!(world.get(e1, b), Some(&5));
    assert_eq!(world.get(e2, a), Some(&3));
    assert_eq!(world.get(e2, b), Some(&4));
    assert_eq!(world.archetypes().len(), archetypes);
    assert_membership(&world);
}

#[test]
fn insert_on_what_is_not_live_changes_nothing() {
    let mut world: World<i64> = World::new();
    let a = register::<A>(&mut world, "A");
    let e = entity(&mut world, &[]);
    assert!(!world.insert(EntityId::null(), a, 1));
    assert!(!world.insert(e, ComponentId::null(), 1));
    assert_eq!(world.get(e, a), None);
    assert_eq!(world.get(EntityId::null(), a), None);
    assert_eq!(world.archetypes().len(), 1);
    assert_membership(&world);
}

#[test]
fn despawn_keeps_every_other_entity_and_value() {
    let mut world: World<i64> = World::new();
    let a = register::<A>(&mut world, "A");
    let e1 = entity(&mut world, &[(a, 1)]);
    let e2 = entity(&mut world, &[(a, 2)]);
    let e3 = entity(&mut world, &[(a, 3)]);
    assert!(world.despawn(e1));
    assert!(!world.despawn(e1));
    assert!(!world.entities().contains(e1));
    assert_eq!(world.get(e1, a), None);
    assert_eq!(world.get(e2, a), Some(&2));
    assert_eq!(world.get(e3, a), Some(&3));
    assert_eq!(world.entities().get(e3).unwrap().row, 0);
    assert_eq!(world.entities().get(e2).unwrap().row, 1);
    assert_eq!(world.archetypes().len(), 2);
    assert_membership(&world);
    let e4 = entity(&mut world, &[(a, 4)]);
    assert_eq!(e4.index(), e1.index());
    assert_ne!(e4, e1);
    assert_eq!(world.get(e1, a), None);
    assert_eq!(world.get(e4, a), Some(&4));
}

#[test]
fn removing_a_component_leaves_what_does_not_depend_on_it() {
    let mut world: World<i64> = World::new();
    let a = register::<A>(&mut world, "A");
    let b = register::<B>(&mut world, "B");
    let tick = event(&mut world, EventKind::Normal).unwrap();
    let on_insert_b = event(&mut world, EventKind::Insert(b)).unwrap();
    let on_remove_b = event(&mut world, EventKind::Remove(b)).unwrap();
    let on_insert_a = event(&mut world, EventKind::Insert(a)).unwrap();
    assert_eq!(world.components().index(b).insert_events().to_vec(), vec![on_insert_b]);
    assert_eq!(world.components().index(b).remove_events().to_vec(), vec![on_remove_b]);

    let only_a = entity(&mut world, &[(a, 1)]);
    let both = entity(&mut world, &[(a, 2), (b, 3)]);
    let only_b = entity(&mut world, &[(b, 4)]);
    let neither = entity(&mut world, &[]);

    let reads_a = handler(&mut world, tick, vec![FieldQuery::read(a)]).unwrap();
    let writes_b = handler(&mut world, tick, vec![FieldQuery::write(b)]).unwrap();
    let reads_both = handler(&mut world, tick, vec![FieldQuery::read(a), FieldQuery::read(b)]).unwrap();
    let hears_b = handler(&mut world, on_insert_b, vec![FieldQuery::read(a)]).unwrap();
    let hears_b_go = handler(&mut world, on_remove_b, vec![]).unwrap();
    let hears_a = handler(&mut world, on_insert_a, vec![]).unwrap();
    assert_membership(&world);

    let info = world.remove_component(b).unwrap();
    assert_eq!(info.id(), b);
    assert_eq!(info.name(), "B");
    assert!(info.member_of().is_empty());
    assert!(info.insert_events().is_empty());
    assert!(info.remove_events().is_empty());
    assert_membership(&world);

    assert!(!world.components().contains(b));
    assert!(world.components().contains(a));
    assert!(world.entities().contains(only_a));
    assert!(world.entities().contains(neither));
    assert!(!world.entities().contains(both));
    assert!(!world.entities().contains(only_b));
    assert_eq!(world.get(only_a, a), Some(&1));

    assert!(world.handlers().contains(reads_a));
    assert!(world.handlers().contains(hears_a));
    assert!(!world.handlers().contains(writes_b));
    assert!(!world.handlers().contains(reads_both));
    assert!(!world.handlers().contains(hears_b));
    assert!(!world.handlers().contains(hears_b_go));

    assert!(world.events().contains(tick));
    assert!(world.events().contains(on_insert_a));
    assert!(!world.events().contains(on_insert_b));
    assert!(!world.events().contains(on_remove_b));
    assert_eq!(world.send(tick), vec![reads_a]);

    for i in 0..world.archetypes().slot_count() {
        if let Some(arch) = world.archetypes().get(ArchetypeIdx(i as u32)) {
            assert!(!arch.component_indices().contains(&b.index()));
        }
    }
    assert!(world.remove_component(b).is_none());
}

#[test]
fn an_archetype_left_with_a_new_composition_is_kept_without_entities() {
    let mut world: World<i64> = World::new();
    let a = register::<A>(&mut world, "A");
    let b = register::<B>(&mut world, "B");
    let e = entity(&mut world, &[(b, 1), (a, 2)]);
    assert_eq!(world.archetypes().len(), 3);
    let with_both = world.entities().get(e).unwrap().archetype;

    assert!(world.remove_component(b).is_some());
    assert!(!world.entities().contains(e));
    assert_eq!(world.archetypes().len(), 2);
    let kept = world.archetypes().get(with_both).unwrap();
    assert_eq!(kept.component_indices(), &vec![a.index()]);
    assert_eq!(kept.entity_count(), 0);
    assert_eq!(world.components().index(a).member_of().to_vec(), vec![with_both]);
    assert_membership(&world);

    let again = entity(&mut world, &[(a, 5)]);
    assert_eq!(world.entities().get(again).unwrap().archetype, with_both);
    assert_eq!(world.archetypes().len(), 2);
}

#[test]
fn the_identifier_of_a_removed_component_is_not_used_again() {
    let mut world: World<i64> = World::new();
    let a = register::<A>(&mut world, "A");
    let e = entity(&mut world, &[(a, 1)]);
    assert!(world.remove_component(a).is_some());
    let again = register::<A>(&mut world, "A");
    assert_eq!(again.index(), a.index());
    assert_ne!(again, a);
    assert!(!world.entities().contains(e));
    let f = entity(&mut world, &[(again, 2)]);
    assert_eq!(world.get(f, a), None);
    assert_eq!(world.get(f, again), Some(&2));
    assert!(!world.insert(f, a, 3));
    assert_membership(&world);
}

#[test]
fn handlers_with_conflicting_access_are_refused() {
    let mut world: World<i64> = World::new();
    let a = register::<A>(&mut world, "A");
    let b = register::<B>(&mut world, "B");
    let tick = event(&mut world, EventKind::Normal).unwrap();

    let two_writes = handler(&mut world, tick, vec![FieldQuery::write(a), FieldQuery::write(a)]);
    assert_eq!(two_writes, Err(InitError::ConflictingAccess));
    let write_and_read = handler(&mut world, tick, vec![FieldQuery::read(a), FieldQuery::write(a)]);
    assert_eq!(write_and_read, Err(InitError::ConflictingAccess));
    let read_and_write = handler(
        &mut world,
        tick,
        vec![FieldQuery::write(b), FieldQuery::read(a), FieldQuery::read(b)],
    );
    assert_eq!(read_and_write, Err(InitError::ConflictingAccess));
    assert!(world.handlers().ids().is_empty());

    let two_reads = handler(&mut world, tick, vec![FieldQuery::read(a), FieldQuery::read(a)]);
    assert!(two_reads.is_ok());
    let apart = handler(&mut world, tick, vec![FieldQuery::write(a), FieldQuery::write(b)]);
    assert!(apart.is_ok());
    let info = world.handlers().get(apart.unwrap()).unwrap();
    assert_eq!(info.received_event(), tick);
    assert_eq!(info.component_access().len(), 2);
    assert_eq!(info.component_access().term(0), Some((a.index(), Access::Write)));
    assert_eq!(info.component_access().term(1), Some((b.index(), Access::Write)));
    assert_eq!(info.component_access().term(2), None);
    assert!(info.references_component(b.index()));
    assert!(!info.references_component(ComponentIdx(9)));
    assert!(!info.component_access().is_read_only());
}

#[test]
fn handlers_of_unknown_events_or_components_are_refused() {
    let mut world: World<i64> = World::new();
    let a = register::<A>(&mut world, "A");
    let tick = event(&mut world, EventKind::Normal).unwrap();
    let unknown_event = EventId(Key::new(8, 1).unwrap());
    assert_eq!(
        handler(&mut world, unknown_event, vec![FieldQuery::read(a)]),
        Err(InitError::UnknownEvent)
    );
    assert_eq!(
        handler(&mut world, tick, vec![FieldQuery::read(a), FieldQuery::read(ComponentId::null())]),
        Err(InitError::UnknownComponent)
    );
    assert_eq!(
        handler(
            &mut world,
            unknown_event,
            vec![FieldQuery::write(ComponentId::null()), FieldQuery::write(ComponentId::null())]
        ),
        Err(InitError::UnknownEvent)
    );
    assert_eq!(InitError::ConflictingAccess.message(), "conflicting access to a component");
    assert_eq!(InitError::UnknownComponent.message(), "no such component");
    assert_eq!(InitError::UnknownEvent.message(), "no such event");
}

#[test]
fn handlers_that_write_an_immutable_component_are_refused() {
    let mut world: World<i64> = World::new();
    let a = register::<A>(&mut world, "A");
    assert!(world.components().has_room());
    let (frozen, _) = world.add_component(ComponentDescriptor {
        name: "frozen".to_string(),
        type_id: None,
        layout: Layout::new::<i64>(),
        drop: DropFn(None),
        mutability: Mutability::Immutable,
    });
    let tick = event(&mut world, EventKind::Normal).unwrap();
    assert_eq!(
        handler(&mut world, tick, vec![FieldQuery::read(a), FieldQuery::write(frozen)]),
        Err(InitError::ImmutableComponent)
    );
    assert_eq!(
        handler(&mut world, tick, vec![FieldQuery::write(frozen), FieldQuery::write(frozen)]),
        Err(InitError::ImmutableComponent)
    );
    assert!(handler(&mut world, tick, vec![FieldQuery::write(a), FieldQuery::read(frozen)]).is_ok());
    assert!(Query::new(vec![FieldQuery::write(frozen)]).writes_immutable(world.components()));
    assert!(!Query::new(vec![FieldQuery::write(a)]).writes_immutable(world.components()));
    assert_eq!(
        InitError::ImmutableComponent.message(),
        "mutable access to an immutable component"
    );

    let e = entity(&mut world, &[(frozen, 1)]);
    assert!(world.insert(e, frozen, 2));
    assert_eq!(world.get(e, frozen), Some(&2));
}

#[test]
fn send_lists_the_listeners_in_the_order_of_their_indices() {
    let mut world: World<i64> = World::new();
    let tick = event(&mut world, EventKind::Normal).unwrap();
    let tock = event(&mut world, EventKind::Normal).unwrap();
    let h1 = handler(&mut world, tick, vec![]).unwrap();
    let h2 = handler(&mut world, tock, vec![]).unwrap();
    let h3 = handler(&mut world, tick, vec![]).unwrap();
    assert_eq!(world.send(tick), vec![h1, h3]);
    assert_eq!(world.send(tock), vec![h2]);
    assert_eq!(world.remove_handler(h1).unwrap().id(), h1);
    assert!(world.remove_handler(h1).is_none());
    assert_eq!(world.send(tick), vec![h3]);
    let h4 = handler(&mut world, tick, vec![]).unwrap();
    assert_eq!(h4.0.index(), h1.0.index());
    assert_ne!(h4, h1);
    assert_eq!(world.send(tick), vec![h4, h3]);
    assert_eq!(world.send(EventId(Key::new(5, 1).unwrap())), vec![]);
}

#[test]
fn events_are_listed_with_the_component_that_they_are_tied_to() {
    let mut world: World<i64> = World::new();
    let a = register::<A>(&mut world, "A");
    assert_eq!(event(&mut world, EventKind::Insert(ComponentId::null())), None);
    assert!(world.events().ids().is_empty());
    let first = event(&mut world, EventKind::Insert(a)).unwrap();
    let second = event(&mut world, EventKind::Insert(a)).unwrap();
    let gone = event(&mut world, EventKind::Remove(a)).unwrap();
    assert_eq!(world.events().get(second), Some(EventKind::Insert(a)));
    assert_eq!(world.components().index(a).insert_events().to_vec(), vec![first, second]);
    assert_eq!(world.components().index(a).remove_events().to_vec(), vec![gone]);

    let listener = handler(&mut world, first, vec![]).unwrap();
    let other = handler(&mut world, second, vec![]).unwrap();
    assert_eq!(world.remove_event(first), Some(EventKind::Insert(a)));
    assert_eq!(world.remove_event(first), None);
    assert!(!world.handlers().contains(listener));
    assert!(world.handlers().contains(other));
    assert_eq!(world.components().index(a).insert_events().to_vec(), vec![second]);
    assert_eq!(world.components().index(a).remove_events().to_vec(), vec![gone]);
}

#[test]
fn the_events_of_a_component_are_listed_in_ascending_order() {
    let mut world: World<i64> = World::new();
    let a = register::<A>(&mut world, "A");
    let plain = event(&mut world, EventKind::Normal).unwrap();
    let other = event(&mut world, EventKind::Normal).unwrap();
    let on_insert = event(&mut world, EventKind::Insert(a)).unwrap();
    let on_remove = event(&mut world, EventKind::Remove(a)).unwrap();
    assert_eq!(world.remove_event(plain), Some(EventKind::Normal));
    let on_insert_again = event(&mut world, EventKind::Insert(a)).unwrap();
    assert_eq!(on_insert_again.0.index(), plain.0.index());
    assert_eq!(on_insert_again.0.generation(), 2);
    assert_eq!(world.remove_event(other), Some(EventKind::Normal));
    let on_remove_again = event(&mut world, EventKind::Remove(a)).unwrap();
    assert_eq!(on_remove_again.0.index(), other.0.index());

    let info = world.components().index(a);
    assert_eq!(info.insert_events().to_vec(), vec![on_insert_again, on_insert]);
    assert_eq!(info.remove_events().to_vec(), vec![on_remove_again, on_remove]);
    assert_eq!(info.insert_events().get_index(0), Some(on_insert_again));
    assert!(info.insert_events().contains(on_insert));
    assert!(!info.insert_events().contains(on_remove));
    assert_eq!(info.remove_events().len(), 2);

    assert_eq!(world.remove_event(on_insert_again), Some(EventKind::Insert(a)));
    let third = event(&mut world, EventKind::Insert(a)).unwrap();
    let fourth = event(&mut world, EventKind::Insert(a)).unwrap();
    assert_eq!(third.0.generation(), 3);
    let listed = world.components().index(a).insert_events().to_vec();
    assert_eq!(listed, vec![third, on_insert, fourth]);
    assert_eq!(world.remove_event(on_insert), Some(EventKind::Insert(a)));
    let listed = world.components().index(a).insert_events().to_vec();
    assert_eq!(listed, vec![third, fourth]);
}

#[test]
fn an_insertion_adds_at_most_the_archetype_that_the_entity_moves_to() {
    let mut world: World<i64> = World::new();
    let a = register::<A>(&mut world, "A");
    let b = register::<B>(&mut world, "B");
    let e1 = entity(&mut world, &[]);
    assert_eq!(world.archetypes().len(), 1);
    assert!(world.insert(e1, b, 1));
    assert_eq!(world.archetypes().len(), 2);
    assert_eq!(world.components().index(a).member_of().len(), 0);
    assert_eq!(world.components().index(b).member_of().len(), 1);
    assert!(world.insert(e1, b, 2));
    assert_eq!(world.archetypes().len(), 2);
    assert!(world.insert(e1, a, 3));
    assert_eq!(world.archetypes().len(), 3);
    assert_eq!(world.components().index(a).member_of().len(), 1);
    assert_eq!(world.components().index(b).member_of().len(), 2);
    let e2 = entity(&mut world, &[(b, 4), (a, 5)]);
    assert_eq!(world.archetypes().len(), 3);
    assert_eq!(
        world.entities().get(e2).unwrap().archetype,
        world.entities().get(e1).unwrap().archetype
    );
    assert_eq!(world.components().index(a).member_of().len(), 1);
    assert_eq!(world.components().index(b).member_of().len(), 2);
    assert_membership(&world);
}

#[test]
fn a_fetched_record_is_made_of_the_values_fetched_one_by_one() {
    let mut world: World<i64> = World::new();
    let a = register::<A>(&mut world, "A");
    let b = register::<B>(&mut world, "B");
    let first = entity(&mut world, &[(a, 1), (b, 2)]);
    let second = entity(&mut world, &[(b, 4), (a, 3)]);

    let query = Query::new(vec![FieldQuery::read(b), FieldQuery::read(a)]);
    let state = query.new_state(world.components()).unwrap();
    assert_eq!(state.terms, vec![(b.index(), Access::Read), (a.index(), Access::Read)]);

    for e in [first, second] {
        let loc = world.entities().get(e).unwrap();
        let arch = world.archetypes().get(loc.archetype).unwrap();
        assert_eq!(arch.component_indices(), &vec![a.index(), b.index()]);
        let arch_state = state.new_arch_state(arch).unwrap();
        assert_eq!(arch_state.archetype, loc.archetype);
        assert_eq!(arch_state.columns, vec![(b.index(), 1), (a.index(), 0)]);
        let by_hand = vec![world.get(e, b).unwrap(), world.get(e, a).unwrap()];
        assert_eq!(arch_state.get(arch, loc.row), by_hand);

        for fields in [Fields::Named(2), Fields::Unnamed(2)] {
            let input = DeriveInput { generics: vec![], data: Data::Struct(fields) };
            let derived = derive_query(&input).unwrap();
            assert_eq!(derived.get(&arch_state, arch, loc.row), by_hand);
        }
    }
    assert_eq!(world.get(second, b), Some(&4));
    assert_eq!(world.get(second, a), Some(&3));
}

#[test]
fn a_query_applies_only_to_archetypes_with_all_its_components() {
    let mut world: World<i64> = World::new();
    let a = register::<A>(&mut world, "A");
    let b = register::<B>(&mut world, "B");
    let e = entity(&mut world, &[(a, 1)]);
    let both = Query::new(vec![FieldQuery::read(a), FieldQuery::write(b)]);
    let state = both.new_state(world.components()).unwrap();
    let loc = world.entities().get(e).unwrap();
    assert!(state.new_arch_state(world.archetypes().get(loc.archetype).unwrap()).is_none());
    assert!(state.new_arch_state(world.archetypes().empty()).is_none());
    let nothing = Query::new(vec![]).new_state(world.components()).unwrap();
    assert!(nothing.new_arch_state(world.archetypes().empty()).is_some());
    let unknown = Query::new(vec![FieldQuery::read(a), FieldQuery::read(ComponentId::null())]);
    assert!(unknown.new_state(world.components()).is_none());
}

#[test]
fn the_access_of_a_record_is_the_fold_of_its_fields() {
    let mut world: World<i64> = World::new();
    let a = register::<A>(&mut world, "A");
    let b = register::<B>(&mut world, "B");
    let state = Query::new(vec![FieldQuery::write(a), FieldQuery::read(b)])
        .new_state(world.components())
        .unwrap();
    let access = state.init().unwrap();
    assert_eq!(access.len(), 2);
    assert_eq!(access.term(0), Some((a.index(), Access::Write)));
    assert_eq!(access.term(1), Some((b.index(), Access::Read)));
    assert!(access.references_component(a.index()));

    let clash = Query::new(vec![FieldQuery::read(b), FieldQuery::write(a), FieldQuery::read(a)])
        .new_state(world.components())
        .unwrap();
    assert_eq!(clash.init().err(), Some(InitError::ConflictingAccess));
    let terms = vec![(ComponentIdx(1), Access::Write), (ComponentIdx(1), Access::Write)];
    assert!(ComponentAccess::fold(&terms).is_err());
    let terms = vec![(ComponentIdx(1), Access::Read), (ComponentIdx(1), Access::Read)];
    assert!(ComponentAccess::fold(&terms).unwrap().is_read_only());
}

#[test]
fn the_read_only_variant_exists_exactly_when_every_field_only_reads() {
    let mut world: World<i64> = World::new();
    let a = register::<A>(&mut world, "A");
    let b = register::<B>(&mut world, "B");

    let reads = Query::new(vec![FieldQuery::read(a), FieldQuery::read(b)]);
    assert!(reads.is_read_only());
    let variant = reads.read_only().unwrap();
    assert_eq!(variant.into_query().fields, vec![FieldQuery::read(a), FieldQuery::read(b)]);

    let writes = Query::new(vec![FieldQuery::read(a), FieldQuery::write(b)]);
    assert!(!writes.is_read_only());
    assert!(writes.read_only().is_none());

    assert!(Query::new(vec![]).read_only().is_some());
    assert!(Access::Read.is_read_only());
    assert!(!Access::Write.is_read_only());
}
