use std::alloc::Layout;
use std::any::TypeId;

use evenio::component::{
    AddComponent, ComponentDescriptor, ComponentId, ComponentIdx, Components, DropFn,
    RemoveComponent,
};
use evenio::mutability::{Immutable, Mutability, Mutable, MutabilityMarker};
use evenio::slot_map::Key;

struct Position;
struct Velocity;

fn typed<C: 'static>(name: &str, mutability: Mutability) -> ComponentDescriptor {
    ComponentDescriptor {
        name: name.to_string(),
        type_id: Some(TypeId::of::<C>()),
        layout: Layout::new::<u64>(),
        drop: DropFn(Some(4)),
        mutability,
    }
}

fn untyped(name: &str) -> ComponentDescriptor {
    ComponentDescriptor {
        name: name.to_string(),
        type_id: None,
        layout: Layout::new::<u8>(),
        drop: DropFn(None),
        mutability: Mutability::Immutable,
    }
}

#[test]
fn registering_a_typed_component_twice_is_idempotent() {
    let mut components = Components::new();
    let (first, fresh) = components.add(typed::<Position>("Position", Mutability::Mutable));
    assert!(fresh);
    let (second, fresh) = components.add(typed::<Position>("renamed", Mutability::Immutable));
    assert!(!fresh);
    assert_eq!(first, second);
    assert_eq!(components.iter().len(), 1);
    assert_eq!(components.index(first).name(), "Position");
    assert_eq!(components.index(first).mutability(), Mutability::Mutable);
}

#[test]
fn distinct_type_keys_get_distinct_components() {
    let mut components = Components::new();
    let (a, fresh_a) = components.add(typed::<Position>("Position", Mutability::Mutable));
    let (b, fresh_b) = components.add(typed::<Velocity>("Velocity", Mutability::Mutable));
    assert!(fresh_a && fresh_b);
    assert_ne!(a, b);
    assert_eq!(a, ComponentId(Key::new(0, 1).unwrap()));
    assert_eq!(b, ComponentId(Key::new(1, 1).unwrap()));
    assert_eq!(components.get_by_type_id(TypeId::of::<Velocity>()).unwrap().id(), b);
    assert_eq!(components.index_by_type_id(TypeId::of::<Position>()).id(), a);
    assert!(components.get_by_type_id(TypeId::of::<u8>()).is_none());
}

#[test]
fn components_without_a_type_key_are_never_merged() {
    let mut components = Components::new();
    let (a, fresh_a) = components.add(untyped("dynamic"));
    let (b, fresh_b) = components.add(untyped("dynamic"));
    assert!(fresh_a && fresh_b);
    assert_ne!(a, b);
    assert_eq!(components.iter().len(), 2);
}

#[test]
fn the_record_holds_what_the_descriptor_said() {
    let mut components = Components::new();
    let desc = typed::<Position>("Position", Mutability::Immutable);
    let copy = desc.clone();
    assert_eq!(copy.name, "Position");
    assert_eq!(copy.type_id, Some(TypeId::of::<Position>()));
    assert_eq!(copy.layout, Layout::new::<u64>());
    let (id, _) = components.add(desc);
    let info = components.get(id).unwrap();
    assert_eq!(info.name(), "Position");
    assert_eq!(info.id(), id);
    assert_eq!(info.type_id(), Some(TypeId::of::<Position>()));
    assert_eq!(info.layout(), Layout::new::<u64>());
    assert_eq!(info.drop(), DropFn(Some(4)));
    assert_eq!(info.mutability(), Mutability::Immutable);
    assert!(info.insert_events().is_empty());
    assert!(info.remove_events().is_empty());
    assert!(info.member_of().is_empty());
}

#[test]
fn remove_forgets_the_component_and_its_type_key() {
    let mut components = Components::new();
    let (a, _) = components.add(typed::<Position>("Position", Mutability::Mutable));
    let (b, _) = components.add(typed::<Velocity>("Velocity", Mutability::Mutable));
    let removed = components.remove(a).unwrap();
    assert_eq!(removed.id(), a);
    assert_eq!(removed.name(), "Position");
    assert!(!components.contains(a));
    assert!(components.get(a).is_none());
    assert!(components.get_by_index(a.index()).is_none());
    assert!(components.get_by_type_id(TypeId::of::<Position>()).is_none());
    assert!(components.remove(a).is_none());
    assert!(components.contains(b));
    assert_eq!(components.get_by_type_id(TypeId::of::<Velocity>()).unwrap().id(), b);

    let (again, fresh) = components.add(typed::<Position>("Position", Mutability::Mutable));
    assert!(fresh);
    assert_eq!(again.index(), a.index());
    assert_eq!(again.generation(), a.generation() + 1);
    assert_ne!(again, a);
    assert!(components.get(a).is_none());
    assert_eq!(components.get(again).unwrap().id(), again);
}

#[test]
fn lookups_miss_without_failing() {
    let mut components = Components::new();
    let (a, _) = components.add(untyped("only"));
    assert!(components.get(ComponentId::null()).is_none());
    assert!(components.get(ComponentId(Key::new(0, 2).unwrap())).is_none());
    assert!(!components.contains(ComponentId(Key::new(5, 1).unwrap())));
    assert!(components.get_by_index(ComponentIdx(1)).is_none());
    assert_eq!(components.get_by_index(ComponentIdx(0)).unwrap().id(), a);
    assert_eq!(components.index_by_idx(ComponentIdx(0)).id(), a);
    assert!(components.get_by_index_mut(ComponentIdx(7)).is_none());
    assert_eq!(components.get_by_index_mut(ComponentIdx(0)).unwrap().id(), a);
}

#[test]
fn iter_lists_the_records_by_index() {
    let mut components = Components::new();
    let (a, _) = components.add(untyped("a"));
    let (b, _) = components.add(untyped("b"));
    let (c, _) = components.add(untyped("c"));
    components.remove(b);
    let ids: Vec<ComponentId> = components.iter().iter().map(|info| info.id()).collect();
    assert_eq!(ids, vec![a, c]);
}

#[test]
fn component_id_parts() {
    assert_eq!(ComponentId::new(4, 0), None);
    let id = ComponentId::new(4, 9).unwrap();
    assert_eq!(id.index(), ComponentIdx(4));
    assert_eq!(id.generation(), 9);
    assert!(ComponentId::null().generation() >= 1);
    assert_ne!(ComponentId::new(4, 9), ComponentId::new(4, 10));
    assert_eq!(ComponentId::new(4, 9), ComponentId::new(4, 9));
    assert_eq!(ComponentId::default(), ComponentId::null());
    assert_eq!(ComponentId::null().index(), ComponentIdx(u32::MAX));
    assert_eq!(ComponentIdx(12).index(), 12usize);
    assert_eq!(ComponentIdx::from_index(12), ComponentIdx(12));
    assert_eq!(ComponentIdx::default(), ComponentIdx(0));
    assert_eq!(AddComponent(id).0, id);
    assert_eq!(RemoveComponent(id).0, id);
}

#[test]
fn mutability_markers() {
    assert_eq!(Mutable::mutability(), Mutability::Mutable);
    assert_eq!(Immutable::mutability(), Mutability::Immutable);
    assert!(Mutability::Mutable.is_mutable());
    assert!(!Mutability::Immutable.is_mutable());
}
