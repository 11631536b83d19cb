//! The per-entity relationship record: one side's container of peer entity
//! identifiers, attached to exactly one entity and mutated only by direct
//! caller writes and by the synchronization engine's mirror updates.

use vstd::prelude::*;
use crate::container::{spec_push, EntityContainer, NO_ENTITY};
use crate::relation::ContainerKind;

verus! {

/// The container a record of kind `kind` holds after the entities of `s`
/// were pushed in order, starting from an empty container.
pub open spec fn spec_from(kind: ContainerKind, s: Seq<usize>) -> Seq<usize>
    decreases s.len(),
{
    if s.len() == 0 {
        Seq::empty()
    } else {
        spec_push(kind, spec_from(kind, s.drop_last()), s.last())
    }
}

/// For the two list kinds, pushing one by one reproduces the sequence.
pub proof fn lemma_spec_from_list(kind: ContainerKind, s: Seq<usize>)
    requires
        kind == ContainerKind::BoundedList || kind == ContainerKind::UnboundedList,
    ensures
        spec_from(kind, s) == s,
    decreases s.len(),
{
    if s.len() == 0 {
        assert(spec_from(kind, s) =~= s);
    } else {
        lemma_spec_from_list(kind, s.drop_last());
        assert(spec_from(kind, s) =~= s);
    }
}

/// Relationship state for one side of a relation, attached to one entity.
#[derive(PartialEq, Eq, Debug)]
pub struct Related {
    pub container: EntityContainer,
}

impl View for Related {
    type V = Seq<usize>;

    open spec fn view(&self) -> Seq<usize> {
        self.container@
    }
}

impl Related {
    pub open spec fn kind(&self) -> ContainerKind {
        self.container.kind()
    }

    pub open spec fn wf(&self) -> bool {
        self.container.wf()
    }

    /// A record of kind `kind` pointing at exactly the entity `e`.
    pub fn new(kind: ContainerKind, e: usize) -> (r: Related)
        requires
            e != NO_ENTITY,
        ensures
            r@ == seq![e],
            r.kind() == kind,
            r.wf(),
    {
        Related { container: EntityContainer::new(kind, e) }
    }

    /// A record around an already built container.
    pub fn from_container(container: EntityContainer) -> (r: Related)
        ensures
            r@ == container@,
            r.kind() == container.kind(),
            r.wf() == container.wf(),
    {
        Related { container }
    }

    /// A record of kind `kind` holding the entities of `entities`, pushed in
    /// order into an initially empty container.
    pub fn from_iter(kind: ContainerKind, entities: &Vec<usize>) -> (r: Related)
        requires
            forall|i: int| 0 <= i < entities@.len() ==> entities@[i] != NO_ENTITY,
        ensures
            r@ == spec_from(kind, entities@),
            r.kind() == kind,
            r.wf(),
    {
        let mut container = EntityContainer::empty(kind);
        let mut i: usize = 0;
        while i < entities.len()
            invariant
                i <= entities@.len(),
                forall|j: int| 0 <= j < entities@.len() ==> entities@[j] != NO_ENTITY,
                container@ == spec_from(kind, entities@.subrange(0, i as int)),
                container.kind() == kind,
                container.wf(),
            decreases entities@.len() - i,
        {
            container.push(entities[i]);
            i += 1;
            proof {
                let pre = entities@.subrange(0, i as int - 1);
                let cur = entities@.subrange(0, i as int);
                assert(cur.drop_last() =~= pre);
                assert(cur.last() == entities@[i as int - 1]);
            }
        }
        proof {
            assert(entities@.subrange(0, entities@.len() as int) =~= entities@);
        }
        Related { container }
    }

    /// The peer entities this record points at, in iteration order.
    pub fn iter(&self) -> (r: Vec<usize>)
        ensures
            r@ == self@,
    {
        self.container.iter()
    }

    /// True when this record points at `e`.
    pub fn contains(&self, e: usize) -> (r: bool)
        ensures
            r == self@.contains(e),
    {
        self.container.contains(e)
    }

    /// True when this record points at no entity.
    pub fn is_empty(&self) -> (r: bool)
        ensures
            r == (self@.len() == 0),
    {
        self.container.is_empty()
    }
}

} // verus!
