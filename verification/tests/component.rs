use std::alloc::Layout;
use std::any::TypeId;

use evenio::access::Access;
use evenio::archetype::ArchetypeIdx;
use evenio::component::{ComponentDescriptor, ComponentId, DropFn};
use evenio::entity::EntityId;
use evenio::event::{EventId, EventKind};
use evenio::handler::{HandlerConfig, HandlerId};
use evenio::mutability::Mutability;
use evenio::query::{FieldQuery, Query, QueryState};
use evenio::world::World;

#[derive(Clone, PartialEq, Debug)]
enum Value {
    Text(String),
    List(Vec<String>),
    Marker,
}

fn descriptor<C: 'static>(name: &str) -> ComponentDescriptor {
    ComponentDescriptor {
        name: name.to_string(),
        type_id: Some(TypeId::of::<C>()),
        layout: Layout::new::<C>(),
        drop: DropFn(None),
        mutability: Mutability::Mutable,
    }
}

fn add_component<C: 'static>(world: &mut World<Value>, name: &str) -> ComponentId {
    let desc = descriptor::<C>(name);
    assert!(world.components().has_room());
    world.add_component(desc).0
}

fn spawn(world: &mut World<Value>) -> EntityId {
    assert!(world.can_spawn());
    world.spawn()
}

fn insert(world: &mut World<Value>, entity: EntityId, component: ComponentId, value: Value) {
    assert!(world.archetypes().has_room());
    assert!(world.insert(entity, component, value));
}

fn add_event(world: &mut World<Value>) -> EventId {
    assert!(world.can_add_event());
    world.add_event(EventKind::Normal).unwrap()
}

fn add_handler(world: &mut World<Value>, event: EventId, fields: Vec<FieldQuery>) -> HandlerId {
    assert!(world.can_add_handler());
    world.add_handler(HandlerConfig { event, query: Query::new(fields) }).unwrap()
}

/// Runs every handler that listens to `event`: each one writes `change` of the
/// value of every component that it has write access to, in every row of
/// every archetype that its record applies to.
fn send(world: &mut World<Value>, event: EventId, change: fn(&Value) -> Value) {
    for handler in world.send(event) {
        let mut terms = Vec::new();
        {
            let info = world.handlers().get(handler).unwrap();
            for i in 0..info.component_access().len() {
                terms.push(info.component_access().term(i).unwrap());
            }
        }
        let state = QueryState { terms };
        let mut writes = Vec::new();
        for a in 0..world.archetypes().slot_count() {
            let Some(arch) = world.archetypes().get(ArchetypeIdx(a as u32)) else {
                continue;
            };
            let Some(arch_state) = state.new_arch_state(arch) else {
                continue;
            };
            for row in 0..arch.entity_count() {
                let record = arch_state.get(arch, row);
                let entity = arch.entity_at(row).unwrap();
                for (i, value) in record.iter().enumerate() {
                    if state.terms[i].1 == Access::Write {
                        let id = world.components().get_by_index(state.terms[i].0).unwrap().id();
                        writes.push((entity, id, change(value)));
                    }
                }
            }
        }
        for (entity, id, value) in writes {
            insert(world, entity, id, value);
        }
    }
}

fn push_hello(value: &Value) -> Value {
    match value {
        Value::Text(s) => {
            let mut s = s.clone();
            s.push_str("hello");
            Value::Text(s)
        }
        Value::List(v) => {
            let mut v = v.clone();
            v.push("hello".into());
            Value::List(v)
        }
        Value::Marker => Value::Marker,
    }
}

#[test]
fn remove_component() {
    struct A;
    struct B;

    let mut world: World<Value> = World::new();
    let e = add_event(&mut world);

    let c1 = add_component::<A>(&mut world, "A");
    let e1 = spawn(&mut world);
    insert(&mut world, e1, c1, Value::Text("hello".into()));
    let s1 = add_handler(&mut world, e, vec![FieldQuery::write(c1)]);
    send(&mut world, e, push_hello);
    assert_eq!(world.get(e1, c1), Some(&Value::Text("hellohello".into())));

    assert!(world.remove_component(c1).is_some());
    assert!(!world.handlers().contains(s1));
    assert!(!world.entities().contains(e1));
    assert_eq!(
        world.archetypes().len(),
        1,
        "only the empty archetype should be present"
    );

    let c2 = add_component::<B>(&mut world, "B");
    let e2 = spawn(&mut world);
    assert!(world.entities().contains(e2));
    insert(&mut world, e2, c2, Value::List(vec![]));
    let s2 = add_handler(&mut world, e, vec![FieldQuery::write(c2)]);
    send(&mut world, e, push_hello);
    assert_eq!(world.get(e2, c2), Some(&Value::List(vec!["hello".into()])));

    assert!(world.remove_component(c2).is_some());
    assert!(!world.handlers().contains(s2));
    assert!(!world.entities().contains(e2));
    assert_eq!(world.archetypes().len(), 1);
}

#[test]
fn component_member_of() {
    let mut world: World<Value> = World::new();

    struct A;
    struct B;
    struct C;

    let c1 = add_component::<A>(&mut world, "A");
    let c2 = add_component::<B>(&mut world, "B");
    let c3 = add_component::<C>(&mut world, "C");

    let e1 = spawn(&mut world);
    let e2 = spawn(&mut world);
    let e3 = spawn(&mut world);

    insert(&mut world, e1, c1, Value::Marker);

    insert(&mut world, e2, c1, Value::Marker);
    insert(&mut world, e2, c2, Value::Marker);

    insert(&mut world, e3, c1, Value::Marker);
    insert(&mut world, e3, c2, Value::Marker);
    insert(&mut world, e3, c3, Value::Marker);

    assert_eq!(world.components().index(c1).member_of.len(), 3);
    assert_eq!(world.components().index(c2).member_of.len(), 2);
    assert_eq!(world.components().index(c3).member_of.len(), 1);

    world.remove_component(c3);

    assert_eq!(world.components().index(c1).member_of.len(), 2);
    assert_eq!(world.components().index(c2).member_of.len(), 1);

    world.remove_component(c2);

    assert_eq!(world.components().index(c1).member_of.len(), 1);
}
