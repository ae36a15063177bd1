//! An archetype-based entity-component store with deferred structural
//! mutation, an incrementally maintained query cache, and a
//! conflict-aware schedule planner.
//!
//! Entities are grouped into tables by the exact set of component ids
//! they carry. Structural changes (spawn, destroy, modify) are queued
//! and applied at a single flush point; queries are answered from a
//! cache that maps each registered component-id list to the tables
//! whose id set is a superset of it.

pub mod fingerprint;
pub mod entity;
pub mod table;
pub mod iset;
pub mod query;
pub mod commands;
pub mod archetypes;
pub mod resources;
pub mod scheduler;
pub mod systems;
pub mod engine;
