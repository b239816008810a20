//! Entity/component storage. Each entity's component values live in the
//! columns of the archetype for its exact set of component types. Three
//! indices locate entities, archetypes and columns, and queries walk every
//! archetype that holds a requested set of types. A separate store keeps at
//! most one value per resource type.

pub mod any_vec;
pub mod grid;
pub mod query;
pub mod resources;
pub mod world;

pub use any_vec::{AnyVec, Layout};
pub use grid::{Direction, GridPosition};
pub use resources::{ResourceId, Resources};
pub use query::{QueryCreator, QueryError, QueryIter, QueryResult};
pub use world::{Archetype, ArchetypeId, Column, ComponentId, EntityCreator, EntityId, EntityRecord, World};
