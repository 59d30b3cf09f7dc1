//! An entity-component store with event-driven handlers: the component
//! registry, its generational identifiers, the index from components to the
//! archetypes that hold them, composite queries, and the removal of a
//! component with everything that depends on it.

pub mod access;
pub mod archetype;
pub mod component;
pub mod derive;
pub mod entity;
pub mod event;
pub mod handler;
pub mod map;
pub mod mutability;
pub mod query;
pub mod slot_map;
pub mod state;
pub mod world;
