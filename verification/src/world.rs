//! The synchronization engine around an entity store: per-entity relation
//! records, the deferred mirror-command queue, the change-event log, and the
//! write hooks that schedule mirror updates. All peer mutations are deferred
//! to [`RelationWorld::flush`], which applies them in order against live
//! state and restores the global mirror invariant.

use vstd::prelude::*;
use crate::container::NO_ENTITY;
use crate::event::RelationEvent;
use crate::model::{
    cmd_ok, coherent, discrepancy, has_edge, insert_spec, queue_inv, rec_of, remove_spec, run,
    set_side, spawn_spec, wf, Command, RecView, WorldView,
};
use crate::model;
use crate::related::Related;
use crate::relation::{ContainerKind, Relation, Side};

verus! {

/// The view of an optional record: the sequence of peers it points at.
pub open spec fn opt_view(r: Option<Related>) -> Option<Seq<usize>> {
    match r {
        Option::None => Option::None,
        Option::Some(rel) => Option::Some(rel@),
    }
}

/// One entity's stored relation records, one slot per side.
#[derive(PartialEq, Eq, Debug)]
pub struct EntityRecord {
    pub source: Option<Related>,
    pub target: Option<Related>,
}

impl View for EntityRecord {
    type V = RecView;

    open spec fn view(&self) -> RecView {
        RecView { source: opt_view(self.source), target: opt_view(self.target) }
    }
}

/// Takes the side-`n` slot out of a record, leaving that slot empty.
fn take_slot(entry: EntityRecord, n: Side) -> (pair: (Option<Related>, EntityRecord))
    ensures
        pair.1@ == set_side(entry@, n, Option::None),
        n == Side::Source ==> pair.0 == entry.source && pair.1.target == entry.target
            && pair.1.source is None,
        n == Side::Target ==> pair.0 == entry.target && pair.1.source == entry.source
            && pair.1.target is None,
{
    match n {
        Side::Source => (entry.source, EntityRecord { source: Option::None, target: entry.target }),
        Side::Target => (entry.target, EntityRecord { source: entry.source, target: Option::None }),
    }
}

/// Puts a record value back into the side-`n` slot.
fn put_slot(entry: EntityRecord, n: Side, r: Option<Related>) -> (out: EntityRecord)
    ensures
        out@ == set_side(entry@, n, opt_view(r)),
        n == Side::Source ==> out.source == r && out.target == entry.target,
        n == Side::Target ==> out.target == r && out.source == entry.source,
{
    match n {
        Side::Source => EntityRecord { source: r, target: entry.target },
        Side::Target => EntityRecord { source: entry.source, target: r },
    }
}

/// An entity store for one relation, with its deferred mirror updates and
/// emitted change events.
pub struct RelationWorld {
    pub relation: Relation,
    pub records: Vec<EntityRecord>,
    pub queue: Vec<Command>,
    pub events: Vec<RelationEvent>,
}

impl View for RelationWorld {
    type V = WorldView;

    open spec fn view(&self) -> WorldView {
        WorldView {
            relation: self.relation,
            recs: self.records@.map_values(|r: EntityRecord| r@),
            queue: self.queue@,
            events: self.events@,
        }
    }
}

impl RelationWorld {
    /// Every stored container has the shape its side's descriptor declares.
    pub open spec fn kinds_ok(&self) -> bool {
        forall|i: int|
            0 <= i < self.records@.len() ==> {
                let r = #[trigger] self.records@[i];
                &&& match r.source {
                    Option::Some(rel) => rel.kind() == self.relation.spec_kind(Side::Source),
                    Option::None => true,
                }
                &&& match r.target {
                    Option::Some(rel) => rel.kind() == self.relation.spec_kind(Side::Target),
                    Option::None => true,
                }
            }
    }

    /// The world's validity: its view is well-formed, every inconsistency
    /// the queue created is covered by pending work, and stored containers
    /// match their declared kinds.
    pub open spec fn inv(&self) -> bool {
        &&& wf(self@)
        &&& queue_inv(self@)
        &&& self.kinds_ok()
    }

    /// An empty store for `relation`: no entities, no pending work, no
    /// events, and trivially coherent.
    pub fn new(relation: Relation) -> (w: RelationWorld)
        requires
            relation.wf(),
        ensures
            w.inv(),
            w@.relation == relation,
            w@.recs.len() == 0,
            w@.queue.len() == 0,
            w@.events.len() == 0,
            coherent(w@),
    {
        let w = RelationWorld {
            relation,
            records: Vec::new(),
            queue: Vec::new(),
            events: Vec::new(),
        };
        proof {
            assert(w@.recs =~= Seq::<RecView>::empty());
            assert forall|a: usize, n: Side, b: usize| !#[trigger] discrepancy(w@, a, n, b) by {}
        }
        w
    }

    /// How many entities the store has issued.
    pub fn num_entities(&self) -> (n: usize)
        ensures
            n == self@.recs.len(),
    {
        self.records.len()
    }

    /// Issues a fresh entity with no records. Identifiers are never reused.
    pub fn spawn(&mut self) -> (id: usize)
        requires
            old(self).inv(),
        ensures
            final(self).inv(),
            final(self)@ == spawn_spec(old(self)@),
            id == old(self)@.recs.len(),
            final(self)@.recs.len() == id + 1,
    {
        let id = self.records.len();
        self.records.push(EntityRecord { source: Option::None, target: Option::None });
        proof {
            assert(self@.recs =~= old(self)@.recs.push(
                RecView { source: Option::None, target: Option::None },
            ));
            assert(self@ =~= spawn_spec(old(self)@));
            model::lemma_spawn_inv(old(self)@);
        }
        id
    }

    /// Reads entity `a`'s record for side `side`, if any.
    pub fn get(&self, a: usize, side: Side) -> (r: Option<&Related>)
        requires
            a < self@.recs.len(),
        ensures
            match r {
                Option::Some(rel) => rec_of(self@, a, side) == Option::Some(rel@),
                Option::None => rec_of(self@, a, side) is None,
            },
    {
        let slot = &self.records[a];
        match side {
            Side::Source => slot.source.as_ref(),
            Side::Target => slot.target.as_ref(),
        }
    }

    /// Whether entity `x`'s side-`n` record points at `y`.
    pub fn points_at(&self, x: usize, n: Side, y: usize) -> (r: bool)
        requires
            x < self@.recs.len(),
        ensures
            r == has_edge(self@, x, n, y),
    {
        let slot = &self.records[x];
        let o = match n {
            Side::Source => &slot.source,
            Side::Target => &slot.target,
        };
        match o {
            Option::Some(rel) => rel.contains(y),
            Option::None => false,
        }
    }

    /// Writes (inserts or replaces) entity `a`'s record for `side`. The
    /// prior value's teardowns are scheduled first, then the new value's
    /// installs; no peer is touched until the next flush.
    pub fn insert(&mut self, a: usize, side: Side, rec: Related)
        requires
            old(self).inv(),
            a < old(self)@.recs.len(),
            old(self)@.relation.side_ok(side),
            rec.kind() == old(self)@.relation.spec_kind(side),
            rec.wf(),
            forall|i: int| 0 <= i < rec@.len() ==> (rec@[i] as int) < old(self)@.recs.len(),
        ensures
            final(self).inv(),
            final(self)@ == insert_spec(old(self)@, a, side, rec@),
    {
        let ghost v0 = self@;
        let new_entries: Vec<usize> = rec.iter();
        let mut entry = EntityRecord { source: Option::None, target: Option::None };
        core::mem::swap(&mut entry, &mut self.records[a]);
        let (old_slot, entry) = take_slot(entry, side);
        let old_entries: Vec<usize> = match &old_slot {
            Option::Some(r) => r.iter(),
            Option::None => Vec::new(),
        };
        let entry = put_slot(entry, side, Option::Some(rec));
        self.records[a] = entry;
        proof {
            assert(self.records@ =~= old(self).records@.update(a as int, entry));
            assert(self@.recs =~= model::set_recs(v0.recs, a, side, Option::Some(rec@)));
        }
        let ghost tears = match rec_of(v0, a, side) {
            Option::None => Seq::<Command>::empty(),
            Option::Some(t) => model::tear_cmds(a, side, t),
        };
        proof {
            assert(tears =~= model::tear_cmds(a, side, old_entries@));
        }
        let ghost q0 = self.queue@;
        let ghost recs1 = self.records@;
        let ghost evs0 = self.events@;
        let mut i: usize = 0;
        while i < old_entries.len()
            invariant
                i <= old_entries@.len(),
                self.queue@ == q0 + model::tear_cmds(a, side, old_entries@).subrange(0, i as int),
                self.records@ == recs1,
                self.events@ == evs0,
                self.relation == v0.relation,
            decreases old_entries@.len() - i,
        {
            self.queue.push(Command::Teardown { a, b: old_entries[i], side });
            i += 1;
            proof {
                assert(self.queue@ =~= q0 + model::tear_cmds(a, side, old_entries@).subrange(
                    0,
                    i as int,
                ));
            }
        }
        proof {
            assert(model::tear_cmds(a, side, old_entries@).subrange(
                0,
                old_entries@.len() as int,
            ) =~= model::tear_cmds(a, side, old_entries@));
        }
        let ghost q1 = self.queue@;
        let mut j: usize = 0;
        while j < new_entries.len()
            invariant
                j <= new_entries@.len(),
                self.queue@ == q1 + model::install_cmds(a, side, new_entries@).subrange(
                    0,
                    j as int,
                ),
                self.records@ == recs1,
                self.events@ == evs0,
                self.relation == v0.relation,
            decreases new_entries@.len() - j,
        {
            self.queue.push(Command::Install { a, b: new_entries[j], side });
            j += 1;
            proof {
                assert(self.queue@ =~= q1 + model::install_cmds(a, side, new_entries@).subrange(
                    0,
                    j as int,
                ));
            }
        }
        proof {
            assert(model::install_cmds(a, side, new_entries@).subrange(
                0,
                new_entries@.len() as int,
            ) =~= model::install_cmds(a, side, new_entries@));
            assert(model::install_cmds(a, side, new_entries@) =~= model::install_cmds(
                a,
                side,
                rec@,
            ));
            assert(self.queue@ =~= v0.queue + tears + model::install_cmds(a, side, rec@));
            assert(self@ =~= insert_spec(v0, a, side, rec@));
            model::lemma_insert_inv(v0, a, side, rec@);
            assert forall|k: int| 0 <= k < self.records@.len() implies {
                let r = #[trigger] self.records@[k];
                &&& match r.source {
                    Option::Some(rel) => rel.kind() == self.relation.spec_kind(Side::Source),
                    Option::None => true,
                }
                &&& match r.target {
                    Option::Some(rel) => rel.kind() == self.relation.spec_kind(Side::Target),
                    Option::None => true,
                }
            } by {
                let r0 = old(self).records@[a as int];
                assert(match r0.source {
                    Option::Some(rel) => rel.kind() == self.relation.spec_kind(Side::Source),
                    Option::None => true,
                } && match r0.target {
                    Option::Some(rel) => rel.kind() == self.relation.spec_kind(Side::Target),
                    Option::None => true,
                });
                if k == a as int {
                    assert(self.records@[k] == entry);
                } else {
                    assert(self.records@[k] == old(self).records@[k]);
                }
            }
        }
    }

    /// Removes entity `a`'s record for `side`, scheduling teardowns for
    /// every peer it pointed at; removing an absent record is a no-op.
    pub fn remove(&mut self, a: usize, side: Side)
        requires
            old(self).inv(),
            a < old(self)@.recs.len(),
        ensures
            final(self).inv(),
            final(self)@ == remove_spec(old(self)@, a, side),
    {
        let ghost v0 = self@;
        let mut entry = EntityRecord { source: Option::None, target: Option::None };
        core::mem::swap(&mut entry, &mut self.records[a]);
        let (old_slot, entry) = take_slot(entry, side);
        match old_slot {
            Option::None => {
                self.records[a] = entry;
                proof {
                    assert(self.records@ =~= old(self).records@.update(a as int, entry));
                    assert(entry@ =~= v0.recs[a as int]);
                    assert(self@.recs =~= v0.recs);
                    assert(self@ =~= remove_spec(v0, a, side));
                    assert(self@ =~= v0);
                }
            },
            Option::Some(r) => {
                let old_entries: Vec<usize> = r.iter();
                self.records[a] = entry;
                proof {
                    assert(self.records@ =~= old(self).records@.update(a as int, entry));
                    assert(self@.recs =~= model::set_recs(v0.recs, a, side, Option::None));
                }
                let ghost q0 = self.queue@;
                let ghost recs1 = self.records@;
                let ghost evs0 = self.events@;
                let mut i: usize = 0;
                while i < old_entries.len()
                    invariant
                        i <= old_entries@.len(),
                        self.queue@ == q0 + model::tear_cmds(a, side, old_entries@).subrange(
                            0,
                            i as int,
                        ),
                        self.records@ == recs1,
                        self.events@ == evs0,
                        self.relation == v0.relation,
                    decreases old_entries@.len() - i,
                {
                    self.queue.push(Command::Teardown { a, b: old_entries[i], side });
                    i += 1;
                    proof {
                        assert(self.queue@ =~= q0 + model::tear_cmds(
                            a,
                            side,
                            old_entries@,
                        ).subrange(0, i as int));
                    }
                }
                proof {
                    assert(model::tear_cmds(a, side, old_entries@).subrange(
                        0,
                        old_entries@.len() as int,
                    ) =~= model::tear_cmds(a, side, old_entries@));
                    assert(self@ =~= remove_spec(v0, a, side));
                    model::lemma_remove_inv(v0, a, side);
                    assert forall|k: int| 0 <= k < self.records@.len() implies {
                        let rr = #[trigger] self.records@[k];
                        &&& match rr.source {
                            Option::Some(rel) => rel.kind() == self.relation.spec_kind(
                                Side::Source,
                            ),
                            Option::None => true,
                        }
                        &&& match rr.target {
                            Option::Some(rel) => rel.kind() == self.relation.spec_kind(
                                Side::Target,
                            ),
                            Option::None => true,
                        }
                    } by {
                        let r0 = old(self).records@[a as int];
                        assert(match r0.source {
                            Option::Some(rel) => rel.kind() == self.relation.spec_kind(
                                Side::Source,
                            ),
                            Option::None => true,
                        } && match r0.target {
                            Option::Some(rel) => rel.kind() == self.relation.spec_kind(
                                Side::Target,
                            ),
                            Option::None => true,
                        });
                        if k == a as int {
                            assert(self.records@[k] == entry);
                        } else {
                            assert(self.records@[k] == old(self).records@[k]);
                        }
                    }
                }
            },
        }
    }

    /// Hands out the change events emitted so far and empties the log.
    pub fn drain_events(&mut self) -> (evs: Vec<RelationEvent>)
        requires
            old(self).inv(),
        ensures
            final(self).inv(),
            evs@ == old(self)@.events,
            final(self)@.events.len() == 0,
            final(self)@.recs == old(self)@.recs,
            final(self)@.queue == old(self)@.queue,
            final(self)@.relation == old(self)@.relation,
    {
        let mut out: Vec<RelationEvent> = Vec::new();
        core::mem::swap(&mut out, &mut self.events);
        proof {
            assert(out@ =~= old(self)@.events);
            let v0 = old(self)@;
            let v1 = self@;
            assert(v1.recs =~= v0.recs);
            assert forall|x: usize, k: Side| (x as int) < v1.recs.len() implies #[trigger]
                model::rec_ok(v1, x, k) by {
                assert(model::rec_ok(v0, x, k));
            }
            assert forall|i: int| 0 <= i < v1.queue.len() implies cmd_ok(
                v1,
                #[trigger] v1.queue[i],
            ) by {
                assert(cmd_ok(v0, v0.queue[i]));
            }
            assert forall|x: usize, k: Side, y: usize| #[trigger] discrepancy(v1, x, k, y)
                implies model::fixers_queued(v1, x, k, y) by {
                assert(discrepancy(v0, x, k, y));
                assert(model::fixers_queued(v0, x, k, y));
            }
        }
        out
    }

    /// The world a flush of the remaining commands sees: current records and
    /// events, with the commands from position `i` on still pending.
    pub open spec fn rem_view(self, i: int) -> WorldView {
        WorldView {
            relation: self.relation,
            recs: self@.recs,
            queue: self@.queue.subrange(i, self@.queue.len() as int),
            events: self@.events,
        }
    }

    /// Applies every pending mirror command, in order, each against live
    /// state at its own apply time; teardowns cascaded while flushing are
    /// applied in the same flush. Afterwards no work is pending and the
    /// global mirror invariant holds: for all entities `a`, `b` and side
    /// `n`, `a`'s side-`n` record points at `b` exactly when `b`'s record
    /// for the opposite side points back at `a`.
    pub fn flush(&mut self)
        requires
            old(self).inv(),
        ensures
            final(self).inv(),
            final(self)@ == run(old(self)@),
            final(self)@.queue.len() == 0,
            coherent(final(self)@),
    {
        proof {
            model::lemma_run_props(old(self)@);
            assert(old(self).rem_view(0) =~~= old(self)@);
        }
        let mut i: usize = 0;
        while i < self.queue.len()
            invariant
                i <= self.queue@.len(),
                self.relation == old(self).relation,
                self.kinds_ok(),
                wf(self.rem_view(i as int)),
                queue_inv(self.rem_view(i as int)),
                run(self.rem_view(i as int)) == run(old(self)@),
            decreases model::installs(self.rem_view(i as int).queue), model::weight(
                self.rem_view(i as int),
            ),
        {
            let ghost rem0 = self.rem_view(i as int);
            proof {
                assert(rem0.queue[0] == self.queue@[i as int]);
                assert(cmd_ok(rem0, rem0.queue[0]));
                model::lemma_step_wf(rem0);
                model::lemma_step_queue_inv(rem0);
                model::lemma_step_measure(rem0);
                assert(run(rem0) == run(model::step(rem0)));
            }
            let cmd = self.queue[i];
            i += 1;
            match cmd {
                Command::Install { a, b, side } => {
                    let m = self.relation.opposite(side);
                    if self.points_at(a, side, b) && !self.points_at(b, m, a) {
                        let kind_m = self.relation.kind(m);
                        let total = self.records.len();
                        proof {
                            assert(a < total);
                        }
                        let ghost records_pre = self.records@;
                        let mut entry = EntityRecord {
                            source: Option::None,
                            target: Option::None,
                        };
                        core::mem::swap(&mut entry, &mut self.records[b]);
                        proof {
                            assert(entry == records_pre[b as int]);
                            assert(entry@ == rem0.recs[b as int]);
                        }
                        let (slot, entry) = take_slot(entry, m);
                        let mut evicted: Option<usize> = Option::None;
                        proof {
                            assert(model::rec_ok(rem0, b, m));
                            assert(rec_of(rem0, b, m) == opt_view(slot));
                            assert(a < self@.recs.len());
                            assert(a != NO_ENTITY);
                        }
                        let newrec: Related = match slot {
                            Option::None => Related::new(kind_m, a),
                            Option::Some(mut r) => {
                                if kind_m == ContainerKind::Singleton {
                                    let occ = r.iter();
                                    if occ.len() == 1 {
                                        evicted = Option::Some(occ[0]);
                                    }
                                }
                                proof {
                                    assert(r.kind() == kind_m);
                                    assert(r.wf());
                                    assert(!r@.contains(a));
                                }
                                r.container.push(a);
                                r
                            },
                        };
                        let entry2 = put_slot(entry, m, Option::Some(newrec));
                        self.records[b] = entry2;
                        self.events.push(RelationEvent::Added(a, b));
                        match evicted {
                            Option::Some(c) => {
                                self.queue.push(Command::Teardown { a: b, b: c, side: m });
                            },
                            Option::None => {},
                        }
                        proof {
                            assert(self.records@ =~= records_pre.update(b as int, entry2));
                            assert forall|j: int| 0 <= j < self@.recs.len() implies self@.recs[j]
                                == model::step(rem0).recs[j] by {
                                if j != b as int {
                                    assert(self.records@[j] == records_pre[j]);
                                }
                            }
                            assert(self.rem_view(i as int).queue =~= model::step(rem0).queue);
                            assert(self.rem_view(i as int) =~~= model::step(rem0));
                            assert forall|k: int| 0 <= k < self.records@.len() implies {
                                let rr = #[trigger] self.records@[k];
                                &&& match rr.source {
                                    Option::Some(rel) => rel.kind() == self.relation.spec_kind(
                                        Side::Source,
                                    ),
                                    Option::None => true,
                                }
                                &&& match rr.target {
                                    Option::Some(rel) => rel.kind() == self.relation.spec_kind(
                                        Side::Target,
                                    ),
                                    Option::None => true,
                                }
                            } by {
                                let r0 = records_pre[b as int];
                                assert(match r0.source {
                                    Option::Some(rel) => rel.kind() == self.relation.spec_kind(
                                        Side::Source,
                                    ),
                                    Option::None => true,
                                } && match r0.target {
                                    Option::Some(rel) => rel.kind() == self.relation.spec_kind(
                                        Side::Target,
                                    ),
                                    Option::None => true,
                                });
                                if k == b as int {
                                    assert(self.records@[k] == entry2);
                                } else {
                                    assert(self.records@[k] == records_pre[k]);
                                }
                            }
                        }
                    } else {
                        proof {
                            assert(self.rem_view(i as int) =~~= model::step(rem0));
                        }
                    }
                },
                Command::Teardown { a, b, side } => {
                    let m = self.relation.opposite(side);
                    if self.points_at(b, m, a) && !self.points_at(a, side, b) {
                        let ghost records_pre = self.records@;
                        let mut entry = EntityRecord {
                            source: Option::None,
                            target: Option::None,
                        };
                        core::mem::swap(&mut entry, &mut self.records[b]);
                        proof {
                            assert(entry == records_pre[b as int]);
                            assert(entry@ == rem0.recs[b as int]);
                        }
                        let (slot, entry) = take_slot(entry, m);
                        proof {
                            assert(model::rec_ok(rem0, b, m));
                            assert(rec_of(rem0, b, m) == opt_view(slot));
                        }
                        match slot {
                            Option::Some(mut r) => {
                                proof {
                                    assert(r.kind() == self.relation.spec_kind(m));
                                    assert(r.wf());
                                }
                                r.container.remove(a);
                                let emptied = r.container.is_empty();
                                let entry2 = if emptied {
                                    entry
                                } else {
                                    put_slot(entry, m, Option::Some(r))
                                };
                                self.records[b] = entry2;
                                self.events.push(RelationEvent::Removed(a, b));
                                if emptied {
                                    self.queue.push(Command::Teardown { a: b, b: a, side: m });
                                }
                                proof {
                                    assert(self.records@ =~= records_pre.update(b as int, entry2));
                                    assert forall|j: int| 0 <= j < self@.recs.len() implies
                                        self@.recs[j] == model::step(rem0).recs[j] by {
                                        if j != b as int {
                                            assert(self.records@[j] == records_pre[j]);
                                        }
                                    }
                                    assert(self.rem_view(i as int).queue =~= model::step(
                                        rem0,
                                    ).queue);
                                    assert(self.rem_view(i as int) =~~= model::step(rem0));
                                    assert forall|k: int| 0 <= k < self.records@.len() implies {
                                        let rr = #[trigger] self.records@[k];
                                        &&& match rr.source {
                                            Option::Some(rel) => rel.kind()
                                                == self.relation.spec_kind(Side::Source),
                                            Option::None => true,
                                        }
                                        &&& match rr.target {
                                            Option::Some(rel) => rel.kind()
                                                == self.relation.spec_kind(Side::Target),
                                            Option::None => true,
                                        }
                                    } by {
                                        let r0 = records_pre[b as int];
                                        assert(match r0.source {
                                            Option::Some(rel) => rel.kind()
                                                == self.relation.spec_kind(Side::Source),
                                            Option::None => true,
                                        } && match r0.target {
                                            Option::Some(rel) => rel.kind()
                                                == self.relation.spec_kind(Side::Target),
                                            Option::None => true,
                                        });
                                        if k == b as int {
                                            assert(self.records@[k] == entry2);
                                        } else {
                                            assert(self.records@[k] == records_pre[k]);
                                        }
                                    }
                                }
                            },
                            Option::None => {
                                proof {
                                    assert(false);
                                }
                                self.records[b] = entry;
                            },
                        }
                    } else {
                        proof {
                            assert(self.rem_view(i as int) =~~= model::step(rem0));
                        }
                    }
                },
            }
        }
        proof {
            let rem = self.rem_view(i as int);
            assert(rem.queue.len() == 0);
            assert(run(rem) == rem);
        }
        self.queue = Vec::new();
        proof {
            assert(self@ =~~= run(old(self)@));
            assert(wf(self@) && coherent(self@)) by {
                model::lemma_run_props(old(self)@);
            }
            assert forall|x: usize, k: Side, y: usize| #[trigger] discrepancy(self@, x, k, y)
                implies model::fixers_queued(self@, x, k, y) by {
                assert(!discrepancy(self@, x, k, y));
            }
        }
    }
}

} // verus!
