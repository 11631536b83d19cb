//! Bidirectional consistency for typed relationships between entities.
//!
//! A relation is declared once as a descriptor of its two sides; thereafter,
//! writing a relation record on one entity transparently keeps the mirrored
//! record on every referenced entity correct. Mirror updates are never applied
//! inside the triggering write: they are queued as small commands and applied
//! at the next flush boundary, after which the global mirror invariant holds:
//! entity `a`'s side-`n` record holds `b` exactly when `b`'s record for the
//! opposite side holds `a`.

pub mod bounded;
pub mod container;
pub mod event;
pub mod laws;
pub mod model;
pub mod query;
pub mod related;
pub mod relation;
pub mod world;
