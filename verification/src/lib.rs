//! Distributed entity synchronization for a peer-to-peer session.
//!
//! Each peer owns (has authority over) a set of entities, broadcasts an
//! interest circle, and sends incremental diffs of its owned entities to
//! every peer whose declared interest currently covers it. Diffs received
//! from other peers are mirrored into per-peer remote models and
//! materialized into local shadow entities on alternating ticks.

pub mod types;
pub mod messages;
pub mod effects;
pub mod outside;
pub mod interest;
pub mod host;
pub mod diff_model;
pub mod entity_sync;
pub mod session;
