//! Fetching the records of both sides of a relation for one entity, with
//! marker types that say whether a side is required, optional, or not
//! fetched at all.

use vstd::prelude::*;
use crate::model::rec_of;
use crate::related::Related;
use crate::relation::Side;
use crate::world::RelationWorld;

verus! {

/// Marks a side that must be present for a selection to succeed.
pub struct Required;

/// Marks a side that may be absent.
pub struct Optional;

/// Marks a side that is not fetched at all.
pub struct Nothing;

/// The ways one side can be asked for when selecting relation records.
pub trait Selector {

}

impl Selector for Required {

}

impl Selector for Optional {

}

impl Selector for Nothing {

}

/// Both sides of the relation for one entity, as read from the store.
pub struct SelectRelated<'a> {
    /// The entity's record for the source side, if any.
    pub source: Option<&'a Related>,
    /// The entity's record for the target side, if any.
    pub target: Option<&'a Related>,
}

impl RelationWorld {
    /// Reads both of entity `e`'s relation records.
    pub fn select_related<'a>(&'a self, e: usize) -> (r: SelectRelated<'a>)
        requires
            e < self@.recs.len(),
        ensures
            match r.source {
                Option::Some(rel) => rec_of(self@, e, Side::Source) == Option::Some(rel@),
                Option::None => rec_of(self@, e, Side::Source) is None,
            },
            match r.target {
                Option::Some(rel) => rec_of(self@, e, Side::Target) == Option::Some(rel@),
                Option::None => rec_of(self@, e, Side::Target) is None,
            },
    {
        SelectRelated { source: self.get(e, Side::Source), target: self.get(e, Side::Target) }
    }

    /// Reads both of entity `e`'s records, requiring both to be present.
    pub fn select_both(&self, e: usize) -> (r: Option<(&Related, &Related)>)
        requires
            e < self@.recs.len(),
        ensures
            match r {
                Option::Some(pair) => rec_of(self@, e, Side::Source) == Option::Some(pair.0@)
                    && rec_of(self@, e, Side::Target) == Option::Some(pair.1@),
                Option::None => rec_of(self@, e, Side::Source) is None || rec_of(
                    self@,
                    e,
                    Side::Target,
                ) is None,
            },
    {
        match (self.get(e, Side::Source), self.get(e, Side::Target)) {
            (Option::Some(s), Option::Some(t)) => Option::Some((s, t)),
            (Option::Some(_), Option::None) => Option::None,
            (Option::None, Option::Some(_)) => Option::None,
            (Option::None, Option::None) => Option::None,
        }
    }
}

} // verus!
