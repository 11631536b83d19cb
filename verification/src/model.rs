//! Mathematical model of the synchronization engine: world states as plain
//! values, the queued mirror commands, the transition one command makes when
//! applied against live state, and the measures that bound a flush.

use vstd::prelude::*;
use crate::container::{no_dups, remove_all, spec_push};
use crate::event::RelationEvent;
use crate::relation::{ContainerKind, Relation, Side};

verus! {

/// A queued mirror update. Commands are evaluated against live state at
/// apply time, never against a snapshot taken when they were scheduled.
#[derive(Clone, Copy, PartialEq, Eq, Structural, Debug)]
pub enum Command {
    /// Ensure `b`'s record for the side opposite `side` points back at `a`,
    /// provided `a`'s `side` record still points at `b` at apply time.
    Install { a: usize, b: usize, side: Side },
    /// Remove `a` from `b`'s record for the side opposite `side`, provided
    /// `a`'s `side` record no longer points at `b` at apply time.
    Teardown { a: usize, b: usize, side: Side },
}

/// One entity's records, one per side, as plain sequences of peer entities.
#[verifier::ext_equal]
pub struct RecView {
    pub source: Option<Seq<usize>>,
    pub target: Option<Seq<usize>>,
}

/// A whole world: the relation descriptor, every entity's records, the
/// pending command queue, and the change events emitted so far.
#[verifier::ext_equal]
pub struct WorldView {
    pub relation: Relation,
    pub recs: Seq<RecView>,
    pub queue: Seq<Command>,
    pub events: Seq<RelationEvent>,
}

/// Entity `a`'s record for side `n`.
pub open spec fn rec_at(recs: Seq<RecView>, a: usize, n: Side) -> Option<Seq<usize>> {
    if n == Side::Source {
        recs[a as int].source
    } else {
        recs[a as int].target
    }
}

/// `rec` with its side-`n` record replaced.
pub open spec fn set_side(rec: RecView, n: Side, r: Option<Seq<usize>>) -> RecView {
    if n == Side::Source {
        RecView { source: r, target: rec.target }
    } else {
        RecView { source: rec.source, target: r }
    }
}

/// `recs` with entity `a`'s side-`n` record replaced.
pub open spec fn set_recs(recs: Seq<RecView>, a: usize, n: Side, r: Option<Seq<usize>>) -> Seq<
    RecView,
> {
    recs.update(a as int, set_side(recs[a as int], n, r))
}

/// Whether entity `a`'s side-`n` record points at `b`.
pub open spec fn has_edge_at(recs: Seq<RecView>, a: usize, n: Side, b: usize) -> bool {
    (a as int) < recs.len() && rec_at(recs, a, n) is Some && rec_at(recs, a, n)->0.contains(b)
}

pub open spec fn has_edge(v: WorldView, a: usize, n: Side, b: usize) -> bool {
    has_edge_at(v.recs, a, n, b)
}

pub open spec fn rec_of(v: WorldView, a: usize, n: Side) -> Option<Seq<usize>> {
    rec_at(v.recs, a, n)
}

/// Well-formedness of one stored record: peers point at entities of the
/// world, a singleton holds at most one peer, a deduplicating set holds no
/// peer twice, and a symmetric relation stores records only under its single
/// (source) role.
pub open spec fn rec_ok(v: WorldView, a: usize, n: Side) -> bool {
    &&& (!v.relation.side_ok(n) ==> rec_of(v, a, n) is None)
    &&& match rec_of(v, a, n) {
        Option::None => true,
        Option::Some(s) => {
            &&& forall|i: int| 0 <= i < s.len() ==> (s[i] as int) < v.recs.len()
            &&& (v.relation.spec_kind(n) == ContainerKind::Singleton ==> s.len() <= 1)
            &&& (v.relation.spec_kind(n) == ContainerKind::DedupSet ==> no_dups(s))
        },
    }
}

/// A queued command speaks only of entities of the world and of a writable
/// side.
pub open spec fn cmd_ok(v: WorldView, c: Command) -> bool {
    match c {
        Command::Install { a, b, side } => {
            (a as int) < v.recs.len() && (b as int) < v.recs.len() && v.relation.side_ok(side)
        },
        Command::Teardown { a, b, side } => {
            (a as int) < v.recs.len() && (b as int) < v.recs.len() && v.relation.side_ok(side)
        },
    }
}

pub open spec fn wf(v: WorldView) -> bool {
    &&& v.relation.wf()
    &&& forall|a: usize, n: Side| (a as int) < v.recs.len() ==> #[trigger] rec_ok(v, a, n)
    &&& forall|i: int| 0 <= i < v.queue.len() ==> cmd_ok(v, #[trigger] v.queue[i])
}

/// A one-sided inconsistency: `a`'s side-`n` record points at `b`, but `b`'s
/// mirror record does not point back.
pub open spec fn discrepancy(v: WorldView, a: usize, n: Side, b: usize) -> bool {
    has_edge(v, a, n, b) && !has_edge(v, b, v.relation.spec_opposite(n), a)
}

/// The queue still holds a command that will resolve the discrepancy
/// `(a, n, b)` when applied: either the missing back-reference is installed
/// on `b`, or the forward reference is removed from `a`.
pub open spec fn fixers_queued(v: WorldView, a: usize, n: Side, b: usize) -> bool {
    ||| v.queue.contains(Command::Install { a, b, side: n })
    ||| v.queue.contains(
        Command::Teardown { a: b, b: a, side: v.relation.spec_opposite(n) },
    )
}

/// Every discrepancy has pending deferred work that resolves it.
pub open spec fn queue_inv(v: WorldView) -> bool {
    forall|a: usize, n: Side, b: usize|
        #[trigger] discrepancy(v, a, n, b) ==> fixers_queued(v, a, n, b)
}

/// The global mirror invariant: no discrepancy at all, in either direction.
pub open spec fn coherent(v: WorldView) -> bool {
    forall|a: usize, n: Side, b: usize| !#[trigger] discrepancy(v, a, n, b)
}

/// In a coherent world, `a`'s side-`n` record points at `b` exactly when
/// `b`'s record for the opposite side points back at `a`.
pub proof fn lemma_coherent_mirror(v: WorldView, a: usize, n: Side, b: usize)
    requires
        coherent(v),
    ensures
        has_edge(v, a, n, b) <==> has_edge(v, b, v.relation.spec_opposite(n), a),
{
    assert(!discrepancy(v, a, n, b));
    assert(!discrepancy(v, b, v.relation.spec_opposite(n), a));
    crate::relation::lemma_opposite_involutive(v.relation, n);
}

/// Applying the command at the head of the queue against live state.
pub open spec fn step(v: WorldView) -> WorldView
    recommends
        v.queue.len() > 0,
{
    let q = v.queue.drop_first();
    match v.queue[0] {
        Command::Install { a, b, side } => {
            let m = v.relation.spec_opposite(side);
            if has_edge(v, a, side, b) && (b as int) < v.recs.len() && !has_edge(v, b, m, a) {
                let kind = v.relation.spec_kind(m);
                match rec_of(v, b, m) {
                    Option::None => WorldView {
                        relation: v.relation,
                        recs: set_recs(v.recs, b, m, Option::Some(seq![a])),
                        queue: q,
                        events: v.events.push(RelationEvent::Added(a, b)),
                    },
                    Option::Some(s) => {
                        let q2 = if kind == ContainerKind::Singleton && s.len() == 1 {
                            q.push(Command::Teardown { a: b, b: s[0], side: m })
                        } else {
                            q
                        };
                        WorldView {
                            relation: v.relation,
                            recs: set_recs(v.recs, b, m, Option::Some(spec_push(kind, s, a))),
                            queue: q2,
                            events: v.events.push(RelationEvent::Added(a, b)),
                        }
                    },
                }
            } else {
                WorldView { relation: v.relation, recs: v.recs, queue: q, events: v.events }
            }
        },
        Command::Teardown { a, b, side } => {
            let m = v.relation.spec_opposite(side);
            if (b as int) < v.recs.len() && has_edge(v, b, m, a) && !has_edge(v, a, side, b) {
                let s = rec_of(v, b, m)->0;
                let s2 = remove_all(s, a);
                if s2.len() == 0 {
                    WorldView {
                        relation: v.relation,
                        recs: set_recs(v.recs, b, m, Option::None),
                        queue: q.push(Command::Teardown { a: b, b: a, side: m }),
                        events: v.events.push(RelationEvent::Removed(a, b)),
                    }
                } else {
                    WorldView {
                        relation: v.relation,
                        recs: set_recs(v.recs, b, m, Option::Some(s2)),
                        queue: q,
                        events: v.events.push(RelationEvent::Removed(a, b)),
                    }
                }
            } else {
                WorldView { relation: v.relation, recs: v.recs, queue: q, events: v.events }
            }
        },
    }
}

/// How many installs the queue still holds; installs are only ever scheduled
/// by caller writes, never by applying a command.
pub open spec fn installs(q: Seq<Command>) -> nat
    decreases q.len(),
{
    if q.len() == 0 {
        0
    } else {
        (match q[0] {
            Command::Install { .. } => 1nat,
            Command::Teardown { .. } => 0nat,
        }) + installs(q.drop_first())
    }
}

pub open spec fn opt_size(r: Option<Seq<usize>>) -> nat {
    match r {
        Option::None => 0,
        Option::Some(s) => s.len(),
    }
}

pub open spec fn rec_size(r: RecView) -> nat {
    opt_size(r.source) + opt_size(r.target)
}

/// Total number of stored peer references across the world.
pub open spec fn recs_size(s: Seq<RecView>) -> nat
    decreases s.len(),
{
    if s.len() == 0 {
        0
    } else {
        rec_size(s[0]) + recs_size(s.drop_first())
    }
}

/// The part of the flush measure that teardown chains strictly shrink.
pub open spec fn weight(v: WorldView) -> nat {
    2 * v.queue.len() + recs_size(v.recs)
}

proof fn lemma_installs_push(q: Seq<Command>, c: Command)
    ensures
        installs(q.push(c)) == installs(q) + (match c {
            Command::Install { .. } => 1nat,
            Command::Teardown { .. } => 0nat,
        }),
    decreases q.len(),
{
    let p = q.push(c);
    let csize = (match c {
        Command::Install { .. } => 1nat,
        Command::Teardown { .. } => 0nat,
    });
    if q.len() == 0 {
        assert(p.len() == 1);
        assert(p[0] == c);
        assert(p.drop_first() =~= Seq::<Command>::empty());
        assert(installs(p.drop_first()) == 0);
        assert(installs(p) == csize);
        assert(installs(q) == 0);
    } else {
        assert(p[0] == q[0]);
        assert(p.drop_first() =~= q.drop_first().push(c));
        lemma_installs_push(q.drop_first(), c);
        assert(installs(p) == (match p[0] {
            Command::Install { .. } => 1nat,
            Command::Teardown { .. } => 0nat,
        }) + installs(p.drop_first()));
        assert(installs(p.drop_first()) == installs(q.drop_first()) + csize);
    }
}

proof fn lemma_recs_size_update(s: Seq<RecView>, i: int, r: RecView)
    requires
        0 <= i < s.len(),
    ensures
        recs_size(s.update(i, r)) + rec_size(s[i]) == recs_size(s) + rec_size(r),
    decreases s.len(),
{
    let u = s.update(i, r);
    if i == 0 {
        assert(u.drop_first() =~= s.drop_first());
        assert(u[0] == r);
    } else {
        assert(u[0] == s[0]);
        assert(u.drop_first() =~= s.drop_first().update(i - 1, r));
        lemma_recs_size_update(s.drop_first(), i - 1, r);
    }
}

proof fn lemma_remove_all_shrinks(s: Seq<usize>, e: usize)
    requires
        s.contains(e),
    ensures
        remove_all(s, e).len() < s.len(),
    decreases s.len(),
{
    let d = s.drop_last();
    if s.last() == e {
        crate::container::lemma_remove_all_contains(d, e);
    } else {
        assert(d.contains(e)) by {
            let i = choose|i: int| 0 <= i < s.len() && s[i] == e;
            assert(i < s.len() - 1);
            assert(d[i] == e);
        }
        lemma_remove_all_shrinks(d, e);
    }
}


proof fn lemma_tail_contains(q: Seq<Command>, w: Command)
    requires
        q.len() > 0,
        q.contains(w),
        w != q[0],
    ensures
        q.drop_first().contains(w),
{
    let i = choose|i: int| 0 <= i < q.len() && q[i] == w;
    assert(q.drop_first()[i - 1] == w);
}

/// Queue well-formedness carries from `v` to a state with the same entity
/// count and relation whose queue is the tail, possibly with one well-formed
/// command appended.
proof fn lemma_step_queue_cmds_ok(v: WorldView, v2: WorldView)
    requires
        wf(v),
        v.queue.len() > 0,
        v2.relation == v.relation,
        v2.recs.len() == v.recs.len(),
        v2.queue == v.queue.drop_first() || (exists|t: Command|
            cmd_ok(v, t) && v2.queue == v.queue.drop_first().push(t)),
    ensures
        forall|i: int| 0 <= i < v2.queue.len() ==> cmd_ok(v2, #[trigger] v2.queue[i]),
{
    let q = v.queue.drop_first();
    assert forall|i: int| 0 <= i < v2.queue.len() implies cmd_ok(v2, v2.queue[i]) by {
        if i < q.len() {
            assert(v2.queue[i] == v.queue[i + 1]);
            assert(cmd_ok(v, v.queue[i + 1]));
        } else {
            let t = choose|t: Command| cmd_ok(v, t) && v2.queue == q.push(t);
            assert(v2.queue[i] == t);
        }
    }
}

/// Record well-formedness carries to a state that rewrote one slot with a
/// well-formed record.
proof fn lemma_recs_wf_after_set(v: WorldView, v2: WorldView, b: usize, m: Side)
    requires
        wf(v),
        (b as int) < v.recs.len(),
        v2.relation == v.relation,
        v2.recs == set_recs(v.recs, b, m, rec_at(v2.recs, b, m)),
        v.relation.side_ok(m),
        match rec_at(v2.recs, b, m) {
            Option::None => true,
            Option::Some(s) => {
                &&& forall|i: int| 0 <= i < s.len() ==> (s[i] as int) < v.recs.len()
                &&& (v.relation.spec_kind(m) == ContainerKind::Singleton ==> s.len() <= 1)
                &&& (v.relation.spec_kind(m) == ContainerKind::DedupSet ==> no_dups(s))
            },
        },
    ensures
        forall|a: usize, n: Side| (a as int) < v2.recs.len() ==> #[trigger] rec_ok(v2, a, n),
        v2.recs.len() == v.recs.len(),
{
    assert forall|a: usize, n: Side| (a as int) < v2.recs.len() implies rec_ok(v2, a, n) by {
        assert(rec_ok(v, a, n));
        if !(a == b && n == m) {
            assert(rec_of(v2, a, n) == rec_of(v, a, n));
        }
    }
}

/// Applying the head command preserves well-formedness, the relation, the
/// entity count, and only ever appends events.
pub proof fn lemma_step_wf(v: WorldView)
    requires
        wf(v),
        v.queue.len() > 0,
    ensures
        wf(step(v)),
        step(v).relation == v.relation,
        step(v).recs.len() == v.recs.len(),
        v.events.is_prefix_of(step(v).events),
{
    let v2 = step(v);
    let q = v.queue.drop_first();
    let rel = v.relation;
    assert(cmd_ok(v, v.queue[0]));
    match v.queue[0] {
        Command::Install { a, b, side } => {
            let m = rel.spec_opposite(side);
            assert(rel.side_ok(m));
            if has_edge(v, a, side, b) && (b as int) < v.recs.len() && !has_edge(v, b, m, a) {
                let kind = rel.spec_kind(m);
                assert(rec_ok(v, b, m));
                match rec_of(v, b, m) {
                    Option::None => {
                        let s2 = seq![a];
                        assert(rec_at(v2.recs, b, m) == Option::Some(s2));
                        assert(forall|i: int| 0 <= i < s2.len() ==> (s2[i] as int) < v.recs.len());
                        assert(no_dups(s2));
                        lemma_recs_wf_after_set(v, v2, b, m);
                        lemma_step_queue_cmds_ok(v, v2);
                    },
                    Option::Some(s) => {
                        assert(!s.contains(a));
                        let s2 = spec_push(kind, s, a);
                        assert(rec_at(v2.recs, b, m) == Option::Some(s2));
                        assert forall|i: int| 0 <= i < s2.len() implies (s2[i] as int)
                            < v.recs.len() by {
                            if kind == ContainerKind::Singleton {
                                assert(s2[i] == a);
                            } else {
                                assert(s2 == s.push(a));
                                if i < s.len() {
                                    assert(s2[i] == s[i]);
                                } else {
                                    assert(s2[i] == a);
                                }
                            }
                        }
                        if kind == ContainerKind::DedupSet {
                            crate::container::lemma_push_no_dups(s, a);
                        }
                        lemma_recs_wf_after_set(v, v2, b, m);
                        if kind == ContainerKind::Singleton && s.len() == 1 {
                            let t = Command::Teardown { a: b, b: s[0], side: m };
                            assert((s[0] as int) < v.recs.len());
                            assert(cmd_ok(v, t));
                            assert(v2.queue == q.push(t));
                            lemma_step_queue_cmds_ok(v, v2);
                        } else {
                            lemma_step_queue_cmds_ok(v, v2);
                        }
                    },
                }
                assert(v.events.is_prefix_of(v2.events)) by {
                    assert(v.events =~= v2.events.subrange(0, v.events.len() as int));
                }
            } else {
                assert forall|x: usize, k: Side| (x as int) < v2.recs.len() implies #[trigger]
                    rec_ok(v2, x, k) by {
                    assert(rec_ok(v, x, k));
                    assert(rec_of(v2, x, k) == rec_of(v, x, k));
                }
                lemma_step_queue_cmds_ok(v, v2);
                assert(v.events.is_prefix_of(v2.events)) by {
                    assert(v.events =~= v2.events.subrange(0, v.events.len() as int));
                }
            }
        },
        Command::Teardown { a, b, side } => {
            let m = rel.spec_opposite(side);
            assert(rel.side_ok(m));
            if (b as int) < v.recs.len() && has_edge(v, b, m, a) && !has_edge(v, a, side, b) {
                let s = rec_of(v, b, m)->0;
                let s2 = remove_all(s, a);
                assert(rec_ok(v, b, m));
                crate::container::lemma_remove_all_contains(s, a);
                if s2.len() == 0 {
                    assert(rec_at(v2.recs, b, m) is None);
                    lemma_recs_wf_after_set(v, v2, b, m);
                    let t = Command::Teardown { a: b, b: a, side: m };
                    assert(cmd_ok(v, t));
                    assert(v2.queue == q.push(t));
                    lemma_step_queue_cmds_ok(v, v2);
                } else {
                    assert(rec_at(v2.recs, b, m) == Option::Some(s2));
                    assert forall|i: int| 0 <= i < s2.len() implies (s2[i] as int)
                        < v.recs.len() by {
                        assert(s2.contains(s2[i]));
                        assert(s.contains(s2[i]));
                        let j = choose|j: int| 0 <= j < s.len() && s[j] == s2[i];
                        assert((s[j] as int) < v.recs.len());
                    }
                    if rel.spec_kind(m) == ContainerKind::DedupSet {
                        crate::container::lemma_remove_all_no_dups(s, a);
                    }
                    lemma_recs_wf_after_set(v, v2, b, m);
                    lemma_step_queue_cmds_ok(v, v2);
                }
                assert(v.events.is_prefix_of(v2.events)) by {
                    assert(v.events =~= v2.events.subrange(0, v.events.len() as int));
                }
            } else {
                assert forall|x: usize, k: Side| (x as int) < v2.recs.len() implies #[trigger]
                    rec_ok(v2, x, k) by {
                    assert(rec_ok(v, x, k));
                    assert(rec_of(v2, x, k) == rec_of(v, x, k));
                }
                lemma_step_queue_cmds_ok(v, v2);
                assert(v.events.is_prefix_of(v2.events)) by {
                    assert(v.events =~= v2.events.subrange(0, v.events.len() as int));
                }
            }
        },
    }
}

/// Applying the head command strictly decreases the flush measure: an
/// install is consumed, and teardown chains strictly shrink stored state.
pub proof fn lemma_step_measure(v: WorldView)
    requires
        wf(v),
        v.queue.len() > 0,
    ensures
        installs(step(v).queue) < installs(v.queue) || (installs(step(v).queue) == installs(
            v.queue,
        ) && weight(step(v)) < weight(v)),
{
    let v2 = step(v);
    let q = v.queue.drop_first();
    let rel = v.relation;
    match v.queue[0] {
        Command::Install { a, b, side } => {
            assert(installs(v.queue) == 1 + installs(q));
            let m = rel.spec_opposite(side);
            let kind = rel.spec_kind(m);
            if has_edge(v, a, side, b) && (b as int) < v.recs.len() && !has_edge(v, b, m, a)
                && rec_of(v, b, m) is Some {
                let s = rec_of(v, b, m)->0;
                if kind == ContainerKind::Singleton && s.len() == 1 {
                    let t = Command::Teardown { a: b, b: s[0], side: m };
                    lemma_installs_push(q, t);
                    assert(installs(v2.queue) == installs(q));
                }
            }
            assert(installs(v2.queue) < installs(v.queue));
        },
        Command::Teardown { a, b, side } => {
            assert(installs(v.queue) == installs(q));
            let m = rel.spec_opposite(side);
            if (b as int) < v.recs.len() && has_edge(v, b, m, a) && !has_edge(v, a, side, b) {
                let s = rec_of(v, b, m)->0;
                let s2 = remove_all(s, a);
                let old_rec = v.recs[b as int];
                assert(s.contains(a));
                lemma_remove_all_shrinks(s, a);
                if s2.len() == 0 {
                    let t = Command::Teardown { a: b, b: a, side: m };
                    lemma_installs_push(q, t);
                    assert(installs(v2.queue) == installs(v.queue));
                    let new_rec = set_side(old_rec, m, Option::None);
                    lemma_recs_size_update(v.recs, b as int, new_rec);
                    assert(rec_size(new_rec) + s.len() == rec_size(old_rec));
                    assert(weight(v2) < weight(v));
                } else {
                    assert(installs(v2.queue) == installs(v.queue));
                    let new_rec = set_side(old_rec, m, Option::Some(s2));
                    lemma_recs_size_update(v.recs, b as int, new_rec);
                    assert(rec_size(new_rec) + s.len() == rec_size(old_rec) + s2.len());
                    assert(weight(v2) < weight(v));
                }
            } else {
                assert(installs(v2.queue) == installs(v.queue));
                assert(weight(v2) < weight(v));
            }
        },
    }
}


/// Applying the head command keeps the queue invariant: every one-sided
/// inconsistency still has pending deferred work that resolves it.
#[verifier::rlimit(60)]
pub proof fn lemma_step_queue_inv(v: WorldView)
    requires
        wf(v),
        queue_inv(v),
        v.queue.len() > 0,
    ensures
        queue_inv(step(v)),
{
    let v2 = step(v);
    let q = v.queue.drop_first();
    let rel = v.relation;
    let h = v.queue[0];
    assert(cmd_ok(v, h));
    lemma_step_wf(v);
    assert(v2.queue == q || (v2.queue.len() == q.len() + 1 && forall|i: int|
        0 <= i < q.len() ==> v2.queue[i] == q[i]));
    assert forall|w: Command| q.contains(w) implies v2.queue.contains(w) by {
        let i = choose|i: int| 0 <= i < q.len() && q[i] == w;
        assert(v2.queue[i] == w);
    }
    assert forall|w: Command| v.queue.contains(w) && w != h implies v2.queue.contains(w) by {
        lemma_tail_contains(v.queue, w);
    }
    match h {
        Command::Install { a, b, side } => {
            let m = rel.spec_opposite(side);
            crate::relation::lemma_opposite_involutive(rel, side);
            if has_edge(v, a, side, b) && (b as int) < v.recs.len() && !has_edge(v, b, m, a) {
                let kind = rel.spec_kind(m);
                let old_opt = rec_of(v, b, m);
                assert(rec_of(v2, b, m) is Some);
                let s_new = rec_of(v2, b, m)->0;
                assert(rec_ok(v, b, m));
                assert(s_new.contains(a)) by {
                    match old_opt {
                        Option::None => {
                            assert(s_new == seq![a]);
                            assert(s_new[0] == a);
                        },
                        Option::Some(s) => {
                            assert(!s.contains(a));
                            assert(s_new == spec_push(kind, s, a));
                            if kind == ContainerKind::Singleton {
                                assert(s_new[0] == a);
                            } else {
                                assert(s_new == s.push(a));
                                assert(s_new[s.len() as int] == a);
                            }
                        },
                    }
                }
                assert forall|z: usize| s_new.contains(z) && z != a implies old_opt is Some
                    && old_opt->0.contains(z) by {
                    let i = choose|i: int| 0 <= i < s_new.len() && s_new[i] == z;
                    match old_opt {
                        Option::None => {
                            assert(s_new == seq![a]);
                            assert(z == a);
                        },
                        Option::Some(s) => {
                            if kind == ContainerKind::Singleton {
                                assert(s_new == seq![a]);
                                assert(z == a);
                            } else {
                                assert(s_new == s.push(a));
                                if i < s.len() {
                                    assert(s[i] == z);
                                } else {
                                    assert(z == a);
                                }
                            }
                        },
                    }
                }
                assert forall|z: usize| old_opt is Some && old_opt->0.contains(z) && kind
                    != ContainerKind::Singleton implies s_new.contains(z) by {
                    let s = old_opt->0;
                    assert(s_new == s.push(a));
                    let i = choose|i: int| 0 <= i < s.len() && s[i] == z;
                    assert(s_new[i] == z);
                }
                assert forall|z: usize| old_opt is Some && old_opt->0.contains(z)
                    && !s_new.contains(z) implies v2.queue.contains(
                    Command::Teardown { a: b, b: z, side: m },
                ) by {
                    let s = old_opt->0;
                    if kind == ContainerKind::Singleton {
                        assert(s.len() <= 1);
                        let i = choose|i: int| 0 <= i < s.len() && s[i] == z;
                        assert(s.len() == 1 && s[0] == z);
                        let t = Command::Teardown { a: b, b: z, side: m };
                        assert(v2.queue == q.push(t));
                        assert(v2.queue[q.len() as int] == t);
                    }
                }
                assert forall|x: usize, n: Side, y: usize| #[trigger] discrepancy(v2, x, n, y)
                    implies fixers_queued(v2, x, n, y) by {
                    crate::relation::lemma_opposite_involutive(rel, n);
                    let on = rel.spec_opposite(n);
                    assert(has_edge(v2, x, n, y));
                    assert(!has_edge(v2, y, on, x));
                    if x == b && n == m {
                        assert(s_new.contains(y));
                        if y == a {
                            assert(on == side);
                            if a == b && side == m {
                                assert(false);
                            } else {
                                assert(rec_of(v2, a, side) == rec_of(v, a, side));
                                assert(false);
                            }
                        } else {
                            assert(old_opt is Some && old_opt->0.contains(y));
                            assert(has_edge(v, b, m, y));
                            assert(on == side);
                            if y == b && side == m {
                                assert(false);
                            } else {
                                assert(has_edge(v2, y, side, b) == has_edge(
                                    v,
                                    y,
                                    side,
                                    b,
                                )) by {
                                    if (y as int) < v.recs.len() {
                                        assert(rec_of(v2, y, side) == rec_of(v, y, side));
                                    }
                                }
                                assert(!has_edge(v, y, side, b));
                                assert(discrepancy(v, b, m, y));
                                assert(fixers_queued(v, b, m, y));
                                if v.queue.contains(Command::Install { a: b, b: y, side: m }) {
                                    let w = Command::Install { a: b, b: y, side: m };
                                    if w == h {
                                        assert(false);
                                    }
                                    assert(v2.queue.contains(w));
                                } else {
                                    let w = Command::Teardown {
                                        a: y,
                                        b: b,
                                        side: rel.spec_opposite(m),
                                    };
                                    assert(v.queue.contains(w));
                                    assert(v2.queue.contains(w));
                                }
                                assert(fixers_queued(v2, x, n, y));
                            }
                        }
                    } else if y == b && on == m {
                        assert(n == side);
                        assert(!s_new.contains(x));
                        if x == b && side == m {
                            assert(false);
                        } else if x == a {
                            assert(false);
                        } else {
                            assert(rec_of(v2, x, side) == rec_of(v, x, side));
                            assert(has_edge(v, x, side, b));
                            if old_opt is Some && old_opt->0.contains(x) {
                                assert(v2.queue.contains(
                                    Command::Teardown { a: b, b: x, side: m },
                                ));
                                assert(fixers_queued(v2, x, n, y));
                            } else {
                                assert(!has_edge(v, b, m, x));
                                assert(discrepancy(v, x, side, b));
                                assert(fixers_queued(v, x, side, b));
                                if v.queue.contains(Command::Install { a: x, b: b, side: side }) {
                                    let w = Command::Install { a: x, b: b, side: side };
                                    assert(w != h);
                                    assert(v2.queue.contains(w));
                                } else {
                                    let w = Command::Teardown {
                                        a: b,
                                        b: x,
                                        side: rel.spec_opposite(side),
                                    };
                                    assert(v.queue.contains(w));
                                    assert(v2.queue.contains(w));
                                }
                                assert(fixers_queued(v2, x, n, y));
                            }
                        }
                    } else {
                        assert(rec_of(v2, x, n) == rec_of(v, x, n));
                        assert(has_edge(v2, y, on, x) == has_edge(v, y, on, x)) by {
                            if (y as int) < v.recs.len() {
                                assert(rec_of(v2, y, on) == rec_of(v, y, on));
                            }
                        }
                        assert(discrepancy(v, x, n, y));
                        assert(fixers_queued(v, x, n, y));
                        if v.queue.contains(Command::Install { a: x, b: y, side: n }) {
                            let w = Command::Install { a: x, b: y, side: n };
                            if w == h {
                                assert(false);
                            }
                            assert(v2.queue.contains(w));
                        } else {
                            let w = Command::Teardown { a: y, b: x, side: on };
                            assert(v.queue.contains(w));
                            assert(v2.queue.contains(w));
                        }
                        assert(fixers_queued(v2, x, n, y));
                    }
                }
            } else {
                assert forall|x: usize, n: Side, y: usize| #[trigger] discrepancy(v2, x, n, y)
                    implies fixers_queued(v2, x, n, y) by {
                    assert(v2.recs == v.recs);
                    assert(discrepancy(v, x, n, y));
                    assert(fixers_queued(v, x, n, y));
                    let on = rel.spec_opposite(n);
                    if v.queue.contains(Command::Install { a: x, b: y, side: n }) {
                        let w = Command::Install { a: x, b: y, side: n };
                        if w == h {
                            assert(has_edge(v, a, side, b));
                            assert(!has_edge(v, b, m, a));
                            assert(false);
                        }
                        assert(v2.queue.contains(w));
                    } else {
                        let w = Command::Teardown { a: y, b: x, side: on };
                        assert(v.queue.contains(w));
                        assert(v2.queue.contains(w));
                    }
                    assert(fixers_queued(v2, x, n, y));
                }
            }
        },
        Command::Teardown { a, b, side } => {
            let m = rel.spec_opposite(side);
            crate::relation::lemma_opposite_involutive(rel, side);
            if (b as int) < v.recs.len() && has_edge(v, b, m, a) && !has_edge(v, a, side, b) {
                let s = rec_of(v, b, m)->0;
                let s2 = remove_all(s, a);
                assert(rec_ok(v, b, m));
                crate::container::lemma_remove_all_contains(s, a);
                assert forall|z: usize| has_edge(v2, b, m, z) <==> (s.contains(z) && z != a) by {
                    if s2.len() == 0 {
                        assert(rec_of(v2, b, m) is None);
                        if s.contains(z) && z != a {
                            assert(s2.contains(z));
                        }
                    } else {
                        assert(rec_of(v2, b, m) == Option::Some(s2));
                    }
                }
                assert forall|x: usize, n: Side, y: usize| #[trigger] discrepancy(v2, x, n, y)
                    implies fixers_queued(v2, x, n, y) by {
                    crate::relation::lemma_opposite_involutive(rel, n);
                    let on = rel.spec_opposite(n);
                    assert(has_edge(v2, x, n, y));
                    assert(!has_edge(v2, y, on, x));
                    if x == b && n == m {
                        assert(s.contains(y) && y != a);
                        assert(has_edge(v, b, m, y));
                        assert(on == side);
                        if y == b && side == m {
                            assert(false);
                        } else {
                            assert(rec_of(v2, y, side) == rec_of(v, y, side));
                            assert(!has_edge(v, y, side, b));
                            assert(discrepancy(v, b, m, y));
                            assert(fixers_queued(v, b, m, y));
                            if v.queue.contains(Command::Install { a: b, b: y, side: m }) {
                                let w = Command::Install { a: b, b: y, side: m };
                                assert(v2.queue.contains(w));
                            } else {
                                let w = Command::Teardown {
                                    a: y,
                                    b: b,
                                    side: rel.spec_opposite(m),
                                };
                                assert(v.queue.contains(w));
                                if w == h {
                                    assert(false);
                                }
                                assert(v2.queue.contains(w));
                            }
                            assert(fixers_queued(v2, x, n, y));
                        }
                    } else if y == b && on == m {
                        assert(n == side);
                        if x == b && side == m {
                            assert(false);
                        } else if x == a {
                            assert(rec_of(v2, a, side) == rec_of(v, a, side));
                            assert(false);
                        } else {
                            assert(rec_of(v2, x, side) == rec_of(v, x, side));
                            assert(has_edge(v, x, side, b));
                            if s.contains(x) {
                                assert(has_edge(v2, b, m, x));
                                assert(false);
                            } else {
                                assert(!has_edge(v, b, m, x));
                                assert(discrepancy(v, x, side, b));
                                assert(fixers_queued(v, x, side, b));
                                if v.queue.contains(Command::Install { a: x, b: b, side: side }) {
                                    let w = Command::Install { a: x, b: b, side: side };
                                    assert(v2.queue.contains(w));
                                } else {
                                    let w = Command::Teardown {
                                        a: b,
                                        b: x,
                                        side: rel.spec_opposite(side),
                                    };
                                    assert(v.queue.contains(w));
                                    if w == h {
                                        assert(false);
                                    }
                                    assert(v2.queue.contains(w));
                                }
                                assert(fixers_queued(v2, x, n, y));
                            }
                        }
                    } else {
                        assert(rec_of(v2, x, n) == rec_of(v, x, n));
                        assert(has_edge(v2, y, on, x) == has_edge(v, y, on, x)) by {
                            if (y as int) < v.recs.len() {
                                assert(rec_of(v2, y, on) == rec_of(v, y, on));
                            }
                        }
                        assert(discrepancy(v, x, n, y));
                        assert(fixers_queued(v, x, n, y));
                        if v.queue.contains(Command::Install { a: x, b: y, side: n }) {
                            let w = Command::Install { a: x, b: y, side: n };
                            assert(v2.queue.contains(w));
                        } else {
                            let w = Command::Teardown { a: y, b: x, side: on };
                            assert(v.queue.contains(w));
                            if w == h {
                                assert(false);
                            }
                            assert(v2.queue.contains(w));
                        }
                        assert(fixers_queued(v2, x, n, y));
                    }
                }
            } else {
                assert forall|x: usize, n: Side, y: usize| #[trigger] discrepancy(v2, x, n, y)
                    implies fixers_queued(v2, x, n, y) by {
                    assert(v2.recs == v.recs);
                    assert(discrepancy(v, x, n, y));
                    assert(fixers_queued(v, x, n, y));
                    let on = rel.spec_opposite(n);
                    crate::relation::lemma_opposite_involutive(rel, n);
                    if v.queue.contains(Command::Install { a: x, b: y, side: n }) {
                        let w = Command::Install { a: x, b: y, side: n };
                        assert(v2.queue.contains(w));
                    } else {
                        let w = Command::Teardown { a: y, b: x, side: on };
                        assert(v.queue.contains(w));
                        if w == h {
                            assert(has_edge(v, b, m, a));
                            assert(!has_edge(v, a, side, b));
                            assert(false);
                        }
                        assert(v2.queue.contains(w));
                    }
                    assert(fixers_queued(v2, x, n, y));
                }
            }
        },
    }
}

/// The world a flush leaves behind: commands applied in order, first to
/// last, each against the state the ones before it produced, until none is
/// pending. Teardown chains strictly shrink stored state and installs are
/// never re-queued, which bounds the recursion.
pub open spec fn run(v: WorldView) -> WorldView
    decreases installs(v.queue), weight(v),
        when wf(v)
        via run_decreases
{
    if v.queue.len() == 0 {
        v
    } else {
        run(step(v))
    }
}

#[via_fn]
proof fn run_decreases(v: WorldView) {
    if v.queue.len() > 0 {
        lemma_step_wf(v);
        lemma_step_measure(v);
    }
}

/// A flush from any well-formed state whose queue covers its discrepancies
/// ends with an empty queue and a coherent world: the global mirror
/// invariant holds. Events are only ever appended.
pub proof fn lemma_run_props(v: WorldView)
    requires
        wf(v),
        queue_inv(v),
    ensures
        wf(run(v)),
        run(v).queue.len() == 0,
        coherent(run(v)),
        run(v).relation == v.relation,
        run(v).recs.len() == v.recs.len(),
        v.events.is_prefix_of(run(v).events),
    decreases installs(v.queue), weight(v),
{
    if v.queue.len() == 0 {
        assert(run(v) == v);
        assert forall|a: usize, n: Side, b: usize| !#[trigger] discrepancy(v, a, n, b) by {
            if discrepancy(v, a, n, b) {
                assert(fixers_queued(v, a, n, b));
                if v.queue.contains(Command::Install { a, b, side: n }) {
                    let i = choose|i: int|
                        0 <= i < v.queue.len() && v.queue[i] == Command::Install { a, b, side: n };
                    assert(false);
                } else {
                    let w = Command::Teardown { a: b, b: a, side: v.relation.spec_opposite(n) };
                    let i = choose|i: int| 0 <= i < v.queue.len() && v.queue[i] == w;
                    assert(false);
                }
            }
        }
        assert(v.events =~= v.events.subrange(0, v.events.len() as int));
    } else {
        lemma_step_wf(v);
        lemma_step_measure(v);
        lemma_step_queue_inv(v);
        lemma_run_props(step(v));
        assert(run(v) == run(step(v)));
        let e1 = v.events;
        let e2 = step(v).events;
        let e3 = run(v).events;
        assert(e1.is_prefix_of(e3)) by {
            assert(e1.is_prefix_of(e2));
            assert(e2.is_prefix_of(e3));
            assert forall|i: int| 0 <= i < e1.len() implies e1[i] == e3[i] by {
                assert(e1[i] == e2.subrange(0, e1.len() as int)[i]);
                assert(e2[i] == e3.subrange(0, e2.len() as int)[i]);
            }
            assert(e1 =~= e3.subrange(0, e1.len() as int));
        }
    }
}


/// The teardown commands a replace or removal schedules: one per entity the
/// prior record pointed at, in its iteration order.
pub open spec fn tear_cmds(a: usize, n: Side, s: Seq<usize>) -> Seq<Command> {
    Seq::new(s.len(), |i: int| Command::Teardown { a, b: s[i], side: n })
}

/// The install commands a write schedules: one per entity the new record
/// points at, in its iteration order.
pub open spec fn install_cmds(a: usize, n: Side, s: Seq<usize>) -> Seq<Command> {
    Seq::new(s.len(), |i: int| Command::Install { a, b: s[i], side: n })
}

/// Writing (inserting or replacing) the side-`n` record of entity `a` with
/// contents `s`: the prior value's teardowns are scheduled first, then the
/// new value's installs; nothing else is mutated synchronously.
pub open spec fn insert_spec(v: WorldView, a: usize, n: Side, s: Seq<usize>) -> WorldView {
    let tears = match rec_of(v, a, n) {
        Option::None => Seq::<Command>::empty(),
        Option::Some(t) => tear_cmds(a, n, t),
    };
    WorldView {
        relation: v.relation,
        recs: set_recs(v.recs, a, n, Option::Some(s)),
        queue: v.queue + tears + install_cmds(a, n, s),
        events: v.events,
    }
}

/// Removing the side-`n` record of entity `a`: the record disappears at
/// once, and its teardowns are scheduled; removing an absent record is a
/// no-op.
pub open spec fn remove_spec(v: WorldView, a: usize, n: Side) -> WorldView {
    match rec_of(v, a, n) {
        Option::None => v,
        Option::Some(t) => WorldView {
            relation: v.relation,
            recs: set_recs(v.recs, a, n, Option::None),
            queue: v.queue + tear_cmds(a, n, t),
            events: v.events,
        },
    }
}

/// A fresh entity with no records.
pub open spec fn spawn_spec(v: WorldView) -> WorldView {
    WorldView {
        relation: v.relation,
        recs: v.recs.push(RecView { source: Option::None, target: Option::None }),
        queue: v.queue,
        events: v.events,
    }
}

/// A caller write keeps the world well-formed and covers every discrepancy
/// it creates with the commands it schedules.
#[verifier::rlimit(60)]
pub proof fn lemma_insert_inv(v: WorldView, a: usize, n: Side, s: Seq<usize>)
    requires
        wf(v),
        queue_inv(v),
        (a as int) < v.recs.len(),
        v.relation.side_ok(n),
        forall|i: int| 0 <= i < s.len() ==> (s[i] as int) < v.recs.len(),
        v.relation.spec_kind(n) == ContainerKind::Singleton ==> s.len() <= 1,
        v.relation.spec_kind(n) == ContainerKind::DedupSet ==> no_dups(s),
    ensures
        wf(insert_spec(v, a, n, s)),
        queue_inv(insert_spec(v, a, n, s)),
{
    let v2 = insert_spec(v, a, n, s);
    let old_opt = rec_of(v, a, n);
    let tears = match old_opt {
        Option::None => Seq::<Command>::empty(),
        Option::Some(t) => tear_cmds(a, n, t),
    };
    let insts = install_cmds(a, n, s);
    assert(v2.queue == v.queue + tears + insts);
    assert(rec_at(v2.recs, a, n) == Option::Some(s));
    lemma_recs_wf_after_set(v, v2, a, n);
    assert(rec_ok(v, a, n));
    assert forall|i: int| 0 <= i < v2.queue.len() implies cmd_ok(v2, #[trigger] v2.queue[i]) by {
        if i < v.queue.len() {
            assert(v2.queue[i] == v.queue[i]);
            assert(cmd_ok(v, v.queue[i]));
        } else if i < v.queue.len() + tears.len() {
            let t = old_opt->0;
            assert(v2.queue[i] == tears[i - v.queue.len()]);
            assert(tears[i - v.queue.len()] == Command::Teardown {
                a,
                b: t[i - v.queue.len()],
                side: n,
            });
        } else {
            let j = i - v.queue.len() - tears.len();
            assert(v2.queue[i] == insts[j]);
            assert(insts[j] == Command::Install { a, b: s[j], side: n });
        }
    }
    assert forall|w: Command| v.queue.contains(w) implies v2.queue.contains(w) by {
        let i = choose|i: int| 0 <= i < v.queue.len() && v.queue[i] == w;
        assert(v2.queue[i] == w);
    }
    assert forall|x: usize, k: Side, y: usize| #[trigger] discrepancy(v2, x, k, y)
        implies fixers_queued(v2, x, k, y) by {
        crate::relation::lemma_opposite_involutive(v.relation, k);
        crate::relation::lemma_opposite_involutive(v.relation, n);
        let ok_ = v.relation.spec_opposite(k);
        assert(has_edge(v2, x, k, y));
        assert(!has_edge(v2, y, ok_, x));
        if x == a && k == n {
            assert(s.contains(y));
            let j = choose|j: int| 0 <= j < s.len() && s[j] == y;
            assert(v2.queue[v.queue.len() + tears.len() + j] == Command::Install {
                a,
                b: s[j],
                side: n,
            });
            assert(v2.queue.contains(Command::Install { a: x, b: y, side: k }));
            assert(fixers_queued(v2, x, k, y));
        } else if y == a && ok_ == n {
            assert(k == v.relation.spec_opposite(n));
            if x == a && k == n {
                assert(false);
            } else {
                assert(rec_of(v2, x, k) == rec_of(v, x, k));
                assert(has_edge(v, x, k, a));
                assert(!s.contains(x));
                if old_opt is Some && old_opt->0.contains(x) {
                    let t = old_opt->0;
                    let j = choose|j: int| 0 <= j < t.len() && t[j] == x;
                    assert(v2.queue[v.queue.len() + j] == Command::Teardown {
                        a,
                        b: t[j],
                        side: n,
                    });
                    assert(v2.queue.contains(
                        Command::Teardown { a: y, b: x, side: v.relation.spec_opposite(k) },
                    ));
                    assert(fixers_queued(v2, x, k, y));
                } else {
                    assert(!has_edge(v, a, n, x));
                    assert(discrepancy(v, x, k, a));
                    assert(fixers_queued(v, x, k, a));
                    assert(fixers_queued(v2, x, k, y));
                }
            }
        } else {
            assert(rec_of(v2, x, k) == rec_of(v, x, k));
            assert(has_edge(v2, y, ok_, x) == has_edge(v, y, ok_, x)) by {
                if (y as int) < v.recs.len() {
                    assert(rec_of(v2, y, ok_) == rec_of(v, y, ok_));
                }
            }
            assert(discrepancy(v, x, k, y));
            assert(fixers_queued(v, x, k, y));
            assert(fixers_queued(v2, x, k, y));
        }
    }
}

/// Removing a record keeps the world well-formed and schedules teardowns
/// that cover every back-reference left behind.
pub proof fn lemma_remove_inv(v: WorldView, a: usize, n: Side)
    requires
        wf(v),
        queue_inv(v),
        (a as int) < v.recs.len(),
    ensures
        wf(remove_spec(v, a, n)),
        queue_inv(remove_spec(v, a, n)),
{
    let v2 = remove_spec(v, a, n);
    match rec_of(v, a, n) {
        Option::None => {},
        Option::Some(t) => {
            let tears = tear_cmds(a, n, t);
            assert(v2.queue == v.queue + tears);
            assert(rec_at(v2.recs, a, n) is None);
            assert(v.relation.side_ok(n)) by {
                assert(rec_ok(v, a, n));
            }
            lemma_recs_wf_after_set(v, v2, a, n);
            assert(rec_ok(v, a, n));
            assert forall|i: int| 0 <= i < v2.queue.len() implies cmd_ok(
                v2,
                #[trigger] v2.queue[i],
            ) by {
                if i < v.queue.len() {
                    assert(v2.queue[i] == v.queue[i]);
                    assert(cmd_ok(v, v.queue[i]));
                } else {
                    assert(v2.queue[i] == tears[i - v.queue.len()]);
                    assert(tears[i - v.queue.len()] == Command::Teardown {
                        a,
                        b: t[i - v.queue.len()],
                        side: n,
                    });
                }
            }
            assert forall|w: Command| v.queue.contains(w) implies v2.queue.contains(w) by {
                let i = choose|i: int| 0 <= i < v.queue.len() && v.queue[i] == w;
                assert(v2.queue[i] == w);
            }
            assert forall|x: usize, k: Side, y: usize| #[trigger] discrepancy(v2, x, k, y)
                implies fixers_queued(v2, x, k, y) by {
                crate::relation::lemma_opposite_involutive(v.relation, k);
                crate::relation::lemma_opposite_involutive(v.relation, n);
                let ok_ = v.relation.spec_opposite(k);
                assert(has_edge(v2, x, k, y));
                assert(!has_edge(v2, y, ok_, x));
                if x == a && k == n {
                    assert(false);
                } else if y == a && ok_ == n {
                    assert(k == v.relation.spec_opposite(n));
                    assert(rec_of(v2, x, k) == rec_of(v, x, k));
                    assert(has_edge(v, x, k, a));
                    if t.contains(x) {
                        let j = choose|j: int| 0 <= j < t.len() && t[j] == x;
                        assert(v2.queue[v.queue.len() + j] == Command::Teardown {
                            a,
                            b: t[j],
                            side: n,
                        });
                        assert(v2.queue.contains(
                            Command::Teardown { a: y, b: x, side: v.relation.spec_opposite(k) },
                        ));
                        assert(fixers_queued(v2, x, k, y));
                    } else {
                        assert(!has_edge(v, a, n, x));
                        assert(discrepancy(v, x, k, a));
                        assert(fixers_queued(v, x, k, a));
                        assert(fixers_queued(v2, x, k, y));
                    }
                } else {
                    assert(rec_of(v2, x, k) == rec_of(v, x, k));
                    assert(has_edge(v2, y, ok_, x) == has_edge(v, y, ok_, x)) by {
                        if (y as int) < v.recs.len() {
                            assert(rec_of(v2, y, ok_) == rec_of(v, y, ok_));
                        }
                    }
                    assert(discrepancy(v, x, k, y));
                    assert(fixers_queued(v, x, k, y));
                    assert(fixers_queued(v2, x, k, y));
                }
            }
        },
    }
}

/// Spawning a fresh entity disturbs nothing: it has no records and nothing
/// can point at it yet.
pub proof fn lemma_spawn_inv(v: WorldView)
    requires
        wf(v),
        queue_inv(v),
    ensures
        wf(spawn_spec(v)),
        queue_inv(spawn_spec(v)),
{
    let v2 = spawn_spec(v);
    let len = v.recs.len() as int;
    assert forall|x: usize, k: Side| (x as int) < v2.recs.len() implies #[trigger] rec_ok(
        v2,
        x,
        k,
    ) by {
        if (x as int) < len {
            assert(rec_ok(v, x, k));
            assert(rec_of(v2, x, k) == rec_of(v, x, k));
        } else {
            assert(v2.recs[x as int] == RecView { source: Option::None, target: Option::None });
        }
    }
    assert forall|i: int| 0 <= i < v2.queue.len() implies cmd_ok(v2, #[trigger] v2.queue[i]) by {
        assert(cmd_ok(v, v.queue[i]));
    }
    assert forall|x: usize, k: Side, y: usize| #[trigger] discrepancy(v2, x, k, y)
        implies fixers_queued(v2, x, k, y) by {
        assert(has_edge(v2, x, k, y));
        if (x as int) < len {
            assert(rec_of(v2, x, k) == rec_of(v, x, k));
            assert(has_edge(v, x, k, y));
            assert(rec_ok(v, x, k));
            assert((y as int) < len) by {
                let s = rec_of(v, x, k)->0;
                let j = choose|j: int| 0 <= j < s.len() && s[j] == y;
            }
            assert(rec_of(v2, y, v.relation.spec_opposite(k)) == rec_of(
                v,
                y,
                v.relation.spec_opposite(k),
            ));
            assert(discrepancy(v, x, k, y));
            assert(fixers_queued(v, x, k, y));
            assert(fixers_queued(v2, x, k, y));
        } else {
            assert(v2.recs[x as int] == RecView { source: Option::None, target: Option::None });
            assert(false);
        }
    }
}

} // verus!
