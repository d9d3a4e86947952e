//! Keeps observers in step with a store owned by a remote authority: a versioned
//! entity store, a change feed over it, the mirror of a remote session, and bindings
//! that surface changes and send mutations back as diffs.

pub mod binding;
pub mod diff;
pub mod feed;
pub mod mesh;
pub mod session;
pub mod store;
