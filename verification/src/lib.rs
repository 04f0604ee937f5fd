//! An embedded, entity-oriented document store on top of an ordered
//! key-value engine, with sibling, parent/child and free relations and
//! configurable deletion policies.
//!
//! A record type becomes an [`Entity`] by naming its store, its key and
//! its codec; [`EntityStore`] then gives it point operations, ordered
//! scans, relations to other records and deletion under the policies of
//! those relations. What a database holds is modelled as one map,
//! [`db_entries`], and every operation states what it does to that map.

pub mod auto_increment;
pub mod codec;
pub mod deletion;
pub mod edges;
pub mod engine;
pub mod entity;
pub mod entity_store;
pub mod error;
pub mod family;
pub mod import_export;
pub mod keys;
pub mod laws;
pub mod lexing;
pub mod model;
pub mod records;
pub mod relation;
pub mod schema;
pub mod store;
pub mod walk;

pub use auto_increment::AutoIncrementEntity;
pub use deletion::remove_record;
pub use engine::db_entries;
pub use entity::Entity;
pub use entity_store::EntityStore;
pub use error::{ErrorKind, Result, StoreError};
pub use family::{DeletionBehaviour, FamilyDescriptor};
pub use import_export::{EntityRelations, JsonWrapper};
pub use keys::AsBytes;
pub use schema::{EntityData, IdStructure, Relation, Relations};
