//! Queries: the cached set of archetypes that a query matches, and the
//! cursors that walk them.

pub mod access;
pub mod batches;
pub mod binomial;
pub mod combinations;
pub mod equivalence;
pub mod filter;
pub mod iter;

pub mod state;
