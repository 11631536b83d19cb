//! Descriptors that tie a relation's two sides together: each side knows its
//! opposite side and the container shape its records use, and a relation knows
//! whether its two sides are the same role (a symmetric relation).

use vstd::prelude::*;

verus! {

/// The container shape a side's records use.
#[derive(Clone, Copy, PartialEq, Eq, Structural, Debug)]
pub enum ContainerKind {
    /// Holds zero or one entity, with a sentinel for "none".
    Singleton,
    /// Ordered list with a small inline capacity; duplicates allowed.
    BoundedList,
    /// Ordered list without a capacity bound; duplicates allowed.
    UnboundedList,
    /// No duplicates: re-adding a present entity is a no-op.
    DedupSet,
}

/// One of the two endpoint roles of a relation.
#[derive(Clone, Copy, PartialEq, Eq, Structural, Debug)]
pub enum Side {
    Source,
    Target,
}

/// Runtime descriptor of a relation: the container kind of each side and
/// whether the two sides are the same role. A symmetric relation uses only
/// the source role; its opposite side is itself.
#[derive(Clone, Copy, PartialEq, Eq, Structural, Debug)]
pub struct Relation {
    pub symmetric: bool,
    pub source_kind: ContainerKind,
    pub target_kind: ContainerKind,
}

impl Relation {
    /// A symmetric relation's single role must have a single container kind.
    pub open spec fn wf(self) -> bool {
        self.symmetric ==> self.source_kind == self.target_kind
    }

    /// The side opposite to `n`: for a symmetric relation, `n` itself.
    pub open spec fn spec_opposite(self, n: Side) -> Side {
        if self.symmetric {
            n
        } else if n == Side::Source {
            Side::Target
        } else {
            Side::Source
        }
    }

    /// The container kind of side `n`'s records.
    pub open spec fn spec_kind(self, n: Side) -> ContainerKind {
        if n == Side::Source {
            self.source_kind
        } else {
            self.target_kind
        }
    }

    /// The sides a record may be written on: a symmetric relation stores all
    /// of its records under the source role.
    pub open spec fn side_ok(self, n: Side) -> bool {
        self.symmetric ==> n == Side::Source
    }

    /// A relation whose two roles are distinct.
    pub fn new_directed(source_kind: ContainerKind, target_kind: ContainerKind) -> (r: Relation)
        ensures
            r == (Relation { symmetric: false, source_kind, target_kind }),
            r.wf(),
    {
        Relation { symmetric: false, source_kind, target_kind }
    }

    /// A relation whose two roles are the same.
    pub fn new_symmetric(kind: ContainerKind) -> (r: Relation)
        ensures
            r == (Relation { symmetric: true, source_kind: kind, target_kind: kind }),
            r.wf(),
    {
        Relation { symmetric: true, source_kind: kind, target_kind: kind }
    }

    pub fn opposite(&self, n: Side) -> (r: Side)
        ensures
            r == self.spec_opposite(n),
    {
        if self.symmetric {
            n
        } else if n == Side::Source {
            Side::Target
        } else {
            Side::Source
        }
    }

    pub fn kind(&self, n: Side) -> (r: ContainerKind)
        ensures
            r == self.spec_kind(n),
    {
        if n == Side::Source {
            self.source_kind
        } else {
            self.target_kind
        }
    }
}

/// Taking the opposite side twice leads back to the side itself.
pub proof fn lemma_opposite_involutive(rel: Relation, n: Side)
    ensures
        rel.spec_opposite(rel.spec_opposite(n)) == n,
{
}

/// Descriptor of one endpoint role: the relation it belongs to and which of
/// its sides it is.
#[derive(Clone, Copy, PartialEq, Eq, Structural, Debug)]
pub struct Relatable {
    pub relation: Relation,
    pub side: Side,
}

impl Relatable {
    pub open spec fn wf(self) -> bool {
        self.relation.wf() && self.relation.side_ok(self.side)
    }

    /// The descriptor of the opposite role of the same relation.
    pub fn opposite(&self) -> (r: Relatable)
        ensures
            r.relation == self.relation,
            r.side == self.relation.spec_opposite(self.side),
    {
        Relatable { relation: self.relation, side: self.relation.opposite(self.side) }
    }

    /// The container kind this role's records use.
    pub fn kind(&self) -> (r: ContainerKind)
        ensures
            r == self.relation.spec_kind(self.side),
    {
        self.relation.kind(self.side)
    }
}

} // verus!
