//! Change events: one record per mirror edge actually installed or actually
//! dissolved by the synchronization engine — never one per caller write, and
//! none for edges whose mirror side was already correct.

use vstd::prelude::*;

verus! {

/// Emitted when the engine establishes or dissolves the directed edge
/// `a -> b` while maintaining mirror consistency. The first entity is the one
/// whose write triggered the update; the second is the peer whose mirror
/// record was changed.
#[derive(Clone, Copy, PartialEq, Eq, Structural, Debug)]
pub enum RelationEvent {
    Added(usize, usize),
    Removed(usize, usize),
}

} // verus!
