//! Incremental style resolution for a retained-mode UI tree.
//!
//! The crate keeps a tree of entities, per-entity style data in three tiers
//! (inline overrides, values cascaded from matching rules, and values
//! inherited from layout ancestors), and a rule set of CSS-like selectors.
//! A restyle pass matches rules against dirty entities, caches match results
//! across structurally identical siblings, links the winning declarations
//! into the shared tier, and propagates inheritable values top-down.

pub mod context;
pub mod elements;
pub mod events;
pub mod entity;
pub mod laws;
pub mod matcher;
pub mod models;
pub mod style;
pub mod systems;
pub mod selector;
pub mod storage;
pub mod tree;
pub mod window;

pub use entity::Entity;
