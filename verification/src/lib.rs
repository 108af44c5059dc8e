//! An entity-component store whose bookkeeping is verified.
//!
//! Entities are handles into a generational slot registry. Each entity has
//! a bit mask that says which kinds of component it holds, and each kind has
//! a storage that holds the values by slot index. A query states, term by
//! term, which kinds an entity must hold or lack; it borrows the storages
//! that its terms ask for, and then reaches into them directly for every
//! entity whose mask meets its requirement.
//!
//! What would make an operation fail is left out by its `requires`, and
//! each such condition has a test that can be run first: the number of
//! registered kinds, whether a handle resolves, whether terms make a
//! requirement, and whether terms stand in each other's way.
//!
//! A store holds components of one type, which is usually an enum with a
//! variant for each kind. Values of any other type can be kept beside them
//! as resources, one per type.

pub mod bitmask;
pub mod component;
pub mod ecs;
pub mod entity;
pub mod query;
pub mod resource;
pub mod row;
pub mod storage;

pub use crate::bitmask::BitMask;
pub use crate::component::{Component, ComponentId};
pub use crate::ecs::{Ecs, Entity, Error, ReadStorage, WriteStorage};
pub use crate::entity::Entity as EntityId;
pub use crate::entity::{Entities, EntityIter, Entry};
pub use crate::query::{Item, Pattern, Query, QueryIter};
pub use crate::resource::Resource;
pub use crate::row::{Place, Read, Row, Write};
pub use crate::storage::{Marker, NullStorage, Storage, VecStorage};
