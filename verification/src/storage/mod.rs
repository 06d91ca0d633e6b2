//! Storage back ends: sparse sets, tables, resources and the 32-bit vector.

pub mod sparse_set;
pub mod column;
pub mod resource;
pub mod sparse_components;
pub mod table;
pub mod vec32;
