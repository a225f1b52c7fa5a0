//! Diff models: the authoritative side (`local`) owns entities and encodes
//! incremental diff batches; the mirroring side (`remote`) reconstructs a
//! read-only shadow of another peer's entities from received batches.

pub mod local;
pub mod remote;
