//! Entity-component storage core: identifiers, the archetype graph, table and
//! sparse-set storage, resources and query cursors, with machine-checked
//! contracts.

pub mod archetype;
pub mod bundle;
pub mod checked_unwrap;
pub mod component;
pub mod entity;
pub mod frame_count;
pub mod mesh;
pub mod registry;
pub mod storage;
pub mod query;
pub mod world;
