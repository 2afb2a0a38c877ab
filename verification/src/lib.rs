//! Reflective inspection, mutation, and persistence engine for a scene
//! editor: a capability-indexed type catalog, generic read/write access to
//! record fields, a deferred mutation command queue, an inspection rebuild
//! engine, and filtered snapshot save/load.

pub mod catalog;
pub mod codec;
pub mod commands;
pub mod inspect;
pub mod model;
pub mod persist;
pub mod record;
pub mod snapshot;
pub mod store;
pub mod text;
pub mod value;
