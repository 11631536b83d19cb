//! The engine's guarantees, stated and proved over the world model: the
//! mirror invariant at flush boundaries, idempotence of repeated and
//! interleaved writes, replacement acting as a diff, the emptying cascade,
//! and self-consistency of symmetric relations.

use vstd::prelude::*;
use crate::container::remove_all;
use crate::event::RelationEvent;
use crate::model::{
    discrepancy, fixers_queued, has_edge, insert_spec, queue_inv, rec_of, remove_spec,
    run, set_recs, step, wf, Command, WorldView,
};
use crate::model;
use crate::relation::{ContainerKind, Side};

verus! {

/// Mirror invariant: in a well-formed world with no pending deferred work
/// whose past writes are all covered (as every world reached through the
/// engine's operations is), entity `a`'s side-`n` record points at `b`
/// exactly when `b`'s record for the opposite side points back at `a`.
pub proof fn lemma_mirror_invariant(v: WorldView, a: usize, n: Side, b: usize)
    requires
        wf(v),
        queue_inv(v),
        v.queue.len() == 0,
    ensures
        has_edge(v, a, n, b) <==> has_edge(v, b, v.relation.spec_opposite(n), a),
{
    assert forall|x: usize, k: Side, y: usize| !#[trigger] discrepancy(v, x, k, y) by {
        if discrepancy(v, x, k, y) {
            assert(fixers_queued(v, x, k, y));
            if v.queue.contains(Command::Install { a: x, b: y, side: k }) {
                let i = choose|i: int|
                    0 <= i < v.queue.len() && v.queue[i] == Command::Install {
                        a: x,
                        b: y,
                        side: k,
                    };
                assert(false);
            } else {
                let w = Command::Teardown { a: y, b: x, side: v.relation.spec_opposite(k) };
                let i = choose|i: int| 0 <= i < v.queue.len() && v.queue[i] == w;
                assert(false);
            }
        }
    }
    model::lemma_coherent_mirror(v, a, n, b);
}

/// Emptying cascade: when a teardown removes the last remaining
/// back-reference from a peer's mirror container, the peer's mirror record
/// is deleted entirely (not left behind empty).
pub proof fn lemma_emptying_cascade(v: WorldView, a: usize, b: usize, side: Side)
    requires
        wf(v),
        v.queue.len() > 0,
        v.queue[0] == (Command::Teardown { a, b, side }),
        (b as int) < v.recs.len(),
        has_edge(v, b, v.relation.spec_opposite(side), a),
        !has_edge(v, a, side, b),
        remove_all(rec_of(v, b, v.relation.spec_opposite(side))->0, a).len() == 0,
    ensures
        rec_of(step(v), b, v.relation.spec_opposite(side)) is None,
{
}

/// Symmetric relation pairing: for a relation whose two sides are the same
/// role, inserting a singleton edge from `a` to `b` and flushing produces
/// the mirrored record from `b` back to `a` — each record holding exactly
/// the one peer, with no duplicate and no self-reference — and emits
/// exactly one `Added` event.
pub proof fn lemma_symmetric_pairing(v: WorldView, a: usize, b: usize)
    requires
        wf(v),
        queue_inv(v),
        v.queue.len() == 0,
        v.relation.symmetric,
        (a as int) < v.recs.len(),
        (b as int) < v.recs.len(),
        a != b,
        rec_of(v, a, Side::Source) is None,
        rec_of(v, b, Side::Source) is None,
    ensures
        run(insert_spec(v, a, Side::Source, seq![b])).queue.len() == 0,
        rec_of(run(insert_spec(v, a, Side::Source, seq![b])), a, Side::Source) == Option::Some(
            seq![b],
        ),
        rec_of(run(insert_spec(v, a, Side::Source, seq![b])), b, Side::Source) == Option::Some(
            seq![a],
        ),
        run(insert_spec(v, a, Side::Source, seq![b])).events == v.events.push(
            RelationEvent::Added(a, b),
        ),
{
    let n = Side::Source;
    let m = v.relation.spec_opposite(n);
    assert(m == Side::Source);
    let s = seq![b];
    assert(forall|i: int| 0 <= i < s.len() ==> (s[i] as int) < v.recs.len()) by {
        assert(s[0] == b);
    }
    assert(s.len() <= 1);
    assert(crate::container::no_dups(s));
    model::lemma_insert_inv(v, a, n, s);
    let v1 = insert_spec(v, a, n, s);
    assert(v1.queue =~= seq![Command::Install { a, b, side: n }]) by {
        assert(rec_of(v, a, n) is None);
        assert(model::install_cmds(a, n, s).len() == 1);
        assert(model::install_cmds(a, n, s)[0] == Command::Install { a, b, side: n });
    }
    assert(rec_of(v1, a, n) == Option::Some(s));
    assert(has_edge(v1, a, n, b)) by {
        assert(s[0] == b);
        assert(s.contains(b));
    }
    assert(rec_of(v1, b, m) is None);
    assert(!has_edge(v1, b, m, a));
    model::lemma_step_wf(v1);
    let w = step(v1);
    assert(w.recs == set_recs(v1.recs, b, m, Option::Some(seq![a])));
    assert(w.queue =~= Seq::<Command>::empty());
    assert(w.events == v.events.push(RelationEvent::Added(a, b)));
    assert(run(v1) == run(w));
    assert(run(w) == w);
    assert(rec_of(w, a, n) == Option::Some(s));
    assert(rec_of(w, b, m) == Option::Some(seq![a]));
}

/// Symmetric relation teardown: from a mirrored singleton pair, removing
/// either side's record and flushing removes the other side's record too,
/// with exactly one `Removed` event.
pub proof fn lemma_symmetric_removal(w: WorldView, x: usize, y: usize)
    requires
        wf(w),
        queue_inv(w),
        w.queue.len() == 0,
        w.relation.symmetric,
        (x as int) < w.recs.len(),
        (y as int) < w.recs.len(),
        x != y,
        rec_of(w, x, Side::Source) == Option::Some(seq![y]),
        rec_of(w, y, Side::Source) == Option::Some(seq![x]),
    ensures
        run(remove_spec(w, x, Side::Source)).queue.len() == 0,
        rec_of(run(remove_spec(w, x, Side::Source)), x, Side::Source) is None,
        rec_of(run(remove_spec(w, x, Side::Source)), y, Side::Source) is None,
        run(remove_spec(w, x, Side::Source)).events == w.events.push(
            RelationEvent::Removed(x, y),
        ),
{
    let n = Side::Source;
    let m = w.relation.spec_opposite(n);
    assert(m == Side::Source);
    model::lemma_remove_inv(w, x, n);
    let v1 = remove_spec(w, x, n);
    assert(v1.queue =~= seq![Command::Teardown { a: x, b: y, side: n }]) by {
        assert(model::tear_cmds(x, n, seq![y]).len() == 1);
        assert(model::tear_cmds(x, n, seq![y])[0] == Command::Teardown { a: x, b: y, side: n });
    }
    assert(rec_of(v1, x, n) is None);
    assert(!has_edge(v1, x, n, y));
    assert(rec_of(v1, y, m) == Option::Some(seq![x]));
    assert(has_edge(v1, y, m, x)) by {
        assert(seq![x][0] == x);
        assert(seq![x].contains(x));
    }
    model::lemma_step_wf(v1);
    let v2 = step(v1);
    assert(remove_all(seq![x], x) =~= Seq::<usize>::empty()) by {
        let sx = seq![x];
        assert(sx.len() == 1);
        assert(sx.last() == x);
        assert(sx.drop_last() =~= Seq::<usize>::empty());
        assert(sx.drop_last() == Seq::<usize>::empty());
        assert(remove_all(Seq::<usize>::empty(), x) == Seq::<usize>::empty());
        assert(remove_all(sx, x) == remove_all(sx.drop_last(), x));
    }
    assert(v2.recs == set_recs(v1.recs, y, m, Option::None));
    assert(v2.queue =~= seq![Command::Teardown { a: y, b: x, side: m }]);
    assert(v2.events == w.events.push(RelationEvent::Removed(x, y)));
    assert(rec_of(v2, y, m) is None);
    assert(!has_edge(v2, y, m, x));
    assert(rec_of(v2, x, n) is None);
    assert(!has_edge(v2, x, n, y));
    model::lemma_step_wf(v2);
    let v3 = step(v2);
    assert(v3.recs == v2.recs);
    assert(v3.events == v2.events);
    assert(v3.queue =~= Seq::<Command>::empty());
    assert(run(v1) == run(v2));
    assert(run(v2) == run(v3));
    assert(run(v3) == v3);
    assert(rec_of(v3, x, n) is None);
    assert(rec_of(v3, y, n) is None);
}


/// The world after writing the single-peer record `{b}` on `a`'s side `n`,
/// `k` times in a row, with no flush in between.
pub open spec fn insert_edge_repeat(v: WorldView, a: usize, n: Side, b: usize, k: nat) -> WorldView
    decreases k,
{
    if k == 0 {
        v
    } else {
        insert_spec(insert_edge_repeat(v, a, n, b, (k - 1) as nat), a, n, seq![b])
    }
}

/// The world after alternately writing and removing the single-peer record
/// `{b}` on `a`'s side `n`, `k` rounds, with no flush in between.
pub open spec fn toggle_edge_repeat(v: WorldView, a: usize, n: Side, b: usize, k: nat) -> WorldView
    decreases k,
{
    if k == 0 {
        v
    } else {
        remove_spec(
            insert_spec(toggle_edge_repeat(v, a, n, b, (k - 1) as nat), a, n, seq![b]),
            a,
            n,
        )
    }
}

/// `j` repetitions of a teardown-then-install pair for the same edge.
pub open spec fn ti_pairs(a: usize, n: Side, b: usize, j: nat) -> Seq<Command>
    decreases j,
{
    if j == 0 {
        Seq::empty()
    } else {
        seq![
            Command::Teardown { a, b, side: n },
            Command::Install { a, b, side: n },
        ] + ti_pairs(a, n, b, (j - 1) as nat)
    }
}

/// `j` repetitions of an install-then-teardown pair for the same edge.
pub open spec fn it_pairs(a: usize, n: Side, b: usize, j: nat) -> Seq<Command>
    decreases j,
{
    if j == 0 {
        Seq::empty()
    } else {
        seq![
            Command::Install { a, b, side: n },
            Command::Teardown { a, b, side: n },
        ] + it_pairs(a, n, b, (j - 1) as nat)
    }
}

proof fn lemma_ti_pairs_snoc(a: usize, n: Side, b: usize, j: nat)
    requires
        j >= 1,
    ensures
        ti_pairs(a, n, b, j) == ti_pairs(a, n, b, (j - 1) as nat) + seq![
            Command::Teardown { a, b, side: n },
            Command::Install { a, b, side: n },
        ],
    decreases j,
{
    let blk = seq![
        Command::Teardown { a, b, side: n },
        Command::Install { a, b, side: n },
    ];
    if j == 1 {
        assert(ti_pairs(a, n, b, 0) =~= Seq::<Command>::empty());
        assert(ti_pairs(a, n, b, 1) =~= ti_pairs(a, n, b, 0) + blk);
    } else {
        lemma_ti_pairs_snoc(a, n, b, (j - 1) as nat);
        assert(ti_pairs(a, n, b, j) == blk + ti_pairs(a, n, b, (j - 1) as nat));
        assert(blk + (ti_pairs(a, n, b, (j - 2) as nat) + blk) =~= (blk + ti_pairs(
            a,
            n,
            b,
            (j - 2) as nat,
        )) + blk);
    }
}

proof fn lemma_it_pairs_snoc(a: usize, n: Side, b: usize, j: nat)
    requires
        j >= 1,
    ensures
        it_pairs(a, n, b, j) == it_pairs(a, n, b, (j - 1) as nat) + seq![
            Command::Install { a, b, side: n },
            Command::Teardown { a, b, side: n },
        ],
    decreases j,
{
    let blk = seq![
        Command::Install { a, b, side: n },
        Command::Teardown { a, b, side: n },
    ];
    if j == 1 {
        assert(it_pairs(a, n, b, 0) =~= Seq::<Command>::empty());
        assert(it_pairs(a, n, b, 1) =~= it_pairs(a, n, b, 0) + blk);
    } else {
        lemma_it_pairs_snoc(a, n, b, (j - 1) as nat);
        assert(it_pairs(a, n, b, j) == blk + it_pairs(a, n, b, (j - 1) as nat));
        assert(blk + (it_pairs(a, n, b, (j - 2) as nat) + blk) =~= (blk + it_pairs(
            a,
            n,
            b,
            (j - 2) as nat,
        )) + blk);
    }
}

proof fn lemma_insert_repeat_shape(v: WorldView, a: usize, n: Side, b: usize, k: nat)
    requires
        k >= 1,
        wf(v),
        queue_inv(v),
        v.queue.len() == 0,
        v.relation.side_ok(n),
        (a as int) < v.recs.len(),
        (b as int) < v.recs.len(),
        rec_of(v, a, n) is None,
    ensures
        insert_edge_repeat(v, a, n, b, k).recs == set_recs(v.recs, a, n, Option::Some(seq![b])),
        insert_edge_repeat(v, a, n, b, k).events == v.events,
        insert_edge_repeat(v, a, n, b, k).relation == v.relation,
        insert_edge_repeat(v, a, n, b, k).queue == seq![
            Command::Install { a, b, side: n },
        ] + ti_pairs(a, n, b, (k - 1) as nat),
        wf(insert_edge_repeat(v, a, n, b, k)),
        queue_inv(insert_edge_repeat(v, a, n, b, k)),
    decreases k,
{
    let s = seq![b];
    assert(s[0] == b);
    assert(s.len() <= 1);
    assert(crate::container::no_dups(s));
    if k == 1 {
        let v1 = insert_edge_repeat(v, a, n, b, 1);
        assert(v1 == insert_spec(v, a, n, s));
        model::lemma_insert_inv(v, a, n, s);
        assert(v1.queue =~= seq![Command::Install { a, b, side: n }] + ti_pairs(a, n, b, 0)) by {
            assert(model::install_cmds(a, n, s).len() == 1);
            assert(model::install_cmds(a, n, s)[0] == Command::Install { a, b, side: n });
            assert(ti_pairs(a, n, b, 0) =~= Seq::<Command>::empty());
        }
    } else {
        lemma_insert_repeat_shape(v, a, n, b, (k - 1) as nat);
        let vp = insert_edge_repeat(v, a, n, b, (k - 1) as nat);
        let vk = insert_edge_repeat(v, a, n, b, k);
        assert(vk == insert_spec(vp, a, n, s));
        assert(rec_of(vp, a, n) == Option::Some(s));
        model::lemma_insert_inv(vp, a, n, s);
        assert(vk.recs =~= set_recs(v.recs, a, n, Option::Some(s))) by {
            assert(vp.recs == set_recs(v.recs, a, n, Option::Some(s)));
            assert(model::set_side(model::set_side(v.recs[a as int], n, Option::Some(s)), n,
                Option::Some(s)) == model::set_side(v.recs[a as int], n, Option::Some(s)));
        }
        assert(vk.queue =~= seq![Command::Install { a, b, side: n }] + ti_pairs(
            a,
            n,
            b,
            (k - 1) as nat,
        )) by {
            assert(model::tear_cmds(a, n, s).len() == 1);
            assert(model::tear_cmds(a, n, s)[0] == Command::Teardown { a, b, side: n });
            assert(model::install_cmds(a, n, s).len() == 1);
            assert(model::install_cmds(a, n, s)[0] == Command::Install { a, b, side: n });
            lemma_ti_pairs_snoc(a, n, b, (k - 1) as nat);
            assert(vk.queue == vp.queue + model::tear_cmds(a, n, s) + model::install_cmds(
                a,
                n,
                s,
            ));
        }
    }
}

proof fn lemma_run_ti_pairs(u: WorldView, a: usize, n: Side, b: usize, j: nat)
    requires
        wf(u),
        has_edge(u, a, n, b),
        has_edge(u, b, u.relation.spec_opposite(n), a),
        u.queue == ti_pairs(a, n, b, j),
    ensures
        run(u) == (WorldView {
            relation: u.relation,
            recs: u.recs,
            queue: Seq::empty(),
            events: u.events,
        }),
    decreases j,
{
    if j == 0 {
        assert(u.queue.len() == 0);
        assert(run(u) == u);
        assert(u =~~= (WorldView {
            relation: u.relation,
            recs: u.recs,
            queue: Seq::<Command>::empty(),
            events: u.events,
        }));
    } else {
        assert(u.queue[0] == (Command::Teardown { a, b, side: n }));
        model::lemma_step_wf(u);
        let u1 = step(u);
        assert(u1.recs == u.recs);
        assert(u1.events == u.events);
        assert(u1.queue =~= seq![Command::Install { a, b, side: n }] + ti_pairs(
            a,
            n,
            b,
            (j - 1) as nat,
        )) by {
            assert(u1.queue =~= u.queue.drop_first());
        }
        assert(u1.queue[0] == (Command::Install { a, b, side: n }));
        model::lemma_step_wf(u1);
        let u2 = step(u1);
        assert(u2.recs == u.recs);
        assert(u2.events == u.events);
        assert(u2.queue =~= ti_pairs(a, n, b, (j - 1) as nat)) by {
            assert(u2.queue =~= u1.queue.drop_first());
        }
        lemma_run_ti_pairs(u2, a, n, b, (j - 1) as nat);
        assert(run(u) == run(u1));
        assert(run(u1) == run(u2));
    }
}

proof fn lemma_run_it_pairs(u: WorldView, a: usize, n: Side, b: usize, j: nat)
    requires
        wf(u),
        !has_edge(u, a, n, b),
        !has_edge(u, b, u.relation.spec_opposite(n), a),
        u.queue == it_pairs(a, n, b, j),
    ensures
        run(u) == (WorldView {
            relation: u.relation,
            recs: u.recs,
            queue: Seq::empty(),
            events: u.events,
        }),
    decreases j,
{
    if j == 0 {
        assert(u.queue.len() == 0);
        assert(run(u) == u);
        assert(u =~~= (WorldView {
            relation: u.relation,
            recs: u.recs,
            queue: Seq::<Command>::empty(),
            events: u.events,
        }));
    } else {
        assert(u.queue[0] == (Command::Install { a, b, side: n }));
        model::lemma_step_wf(u);
        let u1 = step(u);
        assert(u1.recs == u.recs);
        assert(u1.events == u.events);
        assert(u1.queue =~= seq![Command::Teardown { a, b, side: n }] + it_pairs(
            a,
            n,
            b,
            (j - 1) as nat,
        )) by {
            assert(u1.queue =~= u.queue.drop_first());
        }
        assert(u1.queue[0] == (Command::Teardown { a, b, side: n }));
        model::lemma_step_wf(u1);
        let u2 = step(u1);
        assert(u2.recs == u.recs);
        assert(u2.events == u.events);
        assert(u2.queue =~= it_pairs(a, n, b, (j - 1) as nat)) by {
            assert(u2.queue =~= u1.queue.drop_first());
        }
        lemma_run_it_pairs(u2, a, n, b, (j - 1) as nat);
        assert(run(u) == run(u1));
        assert(run(u1) == run(u2));
    }
}

/// Idempotence of repeated install: writing the same single-peer record on
/// `a` any number of times `k >= 1` before one flush ends in exactly the
/// state that writing it once would give — one mirrored edge on the peer
/// and exactly one `Added` event.
pub proof fn lemma_repeated_install_idempotent(v: WorldView, a: usize, n: Side, b: usize, k: nat)
    requires
        k >= 1,
        wf(v),
        queue_inv(v),
        v.queue.len() == 0,
        v.relation.side_ok(n),
        (a as int) < v.recs.len(),
        (b as int) < v.recs.len(),
        a != b,
        rec_of(v, a, n) is None,
        rec_of(v, b, v.relation.spec_opposite(n)) is None,
    ensures
        run(insert_edge_repeat(v, a, n, b, k)) == run(insert_edge_repeat(v, a, n, b, 1)),
        rec_of(run(insert_edge_repeat(v, a, n, b, 1)), a, n) == Option::Some(seq![b]),
        rec_of(run(insert_edge_repeat(v, a, n, b, 1)), b, v.relation.spec_opposite(n))
            == Option::Some(seq![a]),
        run(insert_edge_repeat(v, a, n, b, 1)).events == v.events.push(RelationEvent::Added(a, b)),
        run(insert_edge_repeat(v, a, n, b, 1)).queue.len() == 0,
{
    let m = v.relation.spec_opposite(n);
    let s = seq![b];
    assert(s[0] == b);
    lemma_insert_repeat_shape(v, a, n, b, k);
    lemma_insert_repeat_shape(v, a, n, b, 1);
    let vk = insert_edge_repeat(v, a, n, b, k);
    let v1 = insert_edge_repeat(v, a, n, b, 1);
    assert(vk.recs == v1.recs);
    assert(has_edge(vk, a, n, b)) by {
        assert(rec_of(vk, a, n) == Option::Some(s));
        assert(s.contains(b));
    }
    assert(rec_of(vk, b, m) is None);
    assert(!has_edge(vk, b, m, a));
    model::lemma_step_wf(vk);
    let w = step(vk);
    assert(w.recs == set_recs(vk.recs, b, m, Option::Some(seq![a])));
    assert(w.queue =~= ti_pairs(a, n, b, (k - 1) as nat));
    assert(w.events == v.events.push(RelationEvent::Added(a, b)));
    assert(has_edge(w, a, n, b)) by {
        assert(rec_of(w, a, n) == Option::Some(s));
        assert(s.contains(b));
    }
    assert(has_edge(w, b, m, a)) by {
        assert(rec_of(w, b, m) == Option::Some(seq![a]));
        assert(seq![a][0] == a);
        assert(seq![a].contains(a));
    }
    lemma_run_ti_pairs(w, a, n, b, (k - 1) as nat);
    assert(run(vk) == run(w));
    assert(has_edge(v1, a, n, b)) by {
        assert(rec_of(v1, a, n) == Option::Some(s));
        assert(s.contains(b));
    }
    assert(!has_edge(v1, b, m, a));
    model::lemma_step_wf(v1);
    let w1 = step(v1);
    assert(w1.recs == w.recs);
    assert(w1.events == w.events);
    assert(w1.queue =~= Seq::<Command>::empty()) by {
        assert(w1.queue =~= v1.queue.drop_first().push(Command::Teardown {
            a: b,
            b: 0,
            side: m,
        }) || w1.queue =~= v1.queue.drop_first());
        assert(ti_pairs(a, n, b, 0) =~= Seq::<Command>::empty());
        assert(v1.queue.drop_first() =~= Seq::<Command>::empty());
    }
    assert(run(v1) == run(w1));
    assert(run(w1) == w1);
    assert(run(w) =~~= w1);
    assert(rec_of(w1, a, n) == Option::Some(s));
    assert(rec_of(w1, b, m) == Option::Some(seq![a]));
}

/// Idempotence of interleaved install and remove: alternately writing and
/// removing the same single-peer record on `a`, any number of rounds before
/// one flush, ends exactly where it began: no record change, no event.
pub proof fn lemma_interleaved_net_zero(v: WorldView, a: usize, n: Side, b: usize, k: nat)
    requires
        wf(v),
        queue_inv(v),
        v.queue.len() == 0,
        v.relation.side_ok(n),
        (a as int) < v.recs.len(),
        (b as int) < v.recs.len(),
        rec_of(v, a, n) is None,
    ensures
        run(toggle_edge_repeat(v, a, n, b, k)) == v,
{
    let m = v.relation.spec_opposite(n);
    lemma_mirror_invariant(v, a, n, b);
    assert(!has_edge(v, a, n, b));
    assert(!has_edge(v, b, m, a));
    lemma_toggle_shape(v, a, n, b, k);
    let vk = toggle_edge_repeat(v, a, n, b, k);
    assert(!has_edge(vk, a, n, b)) by {
        assert(rec_of(vk, a, n) == rec_of(v, a, n));
    }
    assert(!has_edge(vk, b, m, a)) by {
        if (b as int) < v.recs.len() {
            assert(rec_of(vk, b, m) == rec_of(v, b, m));
        }
    }
    lemma_run_it_pairs(vk, a, n, b, k);
    assert(run(vk) =~~= v);
}

proof fn lemma_toggle_shape(v: WorldView, a: usize, n: Side, b: usize, k: nat)
    requires
        wf(v),
        queue_inv(v),
        v.queue.len() == 0,
        v.relation.side_ok(n),
        (a as int) < v.recs.len(),
        (b as int) < v.recs.len(),
        rec_of(v, a, n) is None,
    ensures
        toggle_edge_repeat(v, a, n, b, k).recs == v.recs,
        toggle_edge_repeat(v, a, n, b, k).events == v.events,
        toggle_edge_repeat(v, a, n, b, k).relation == v.relation,
        toggle_edge_repeat(v, a, n, b, k).queue == it_pairs(a, n, b, k),
        wf(toggle_edge_repeat(v, a, n, b, k)),
        queue_inv(toggle_edge_repeat(v, a, n, b, k)),
        rec_of(toggle_edge_repeat(v, a, n, b, k), a, n) is None,
    decreases k,
{
    let s = seq![b];
    assert(s[0] == b);
    assert(s.len() <= 1);
    assert(crate::container::no_dups(s));
    if k == 0 {
        assert(toggle_edge_repeat(v, a, n, b, 0).queue =~= it_pairs(a, n, b, 0));
    } else {
        lemma_toggle_shape(v, a, n, b, (k - 1) as nat);
        let vp = toggle_edge_repeat(v, a, n, b, (k - 1) as nat);
        let vi = insert_spec(vp, a, n, s);
        let vk = toggle_edge_repeat(v, a, n, b, k);
        assert(vk == remove_spec(vi, a, n));
        model::lemma_insert_inv(vp, a, n, s);
        assert(rec_of(vi, a, n) == Option::Some(s));
        model::lemma_remove_inv(vi, a, n);
        assert(vi.queue =~= vp.queue + seq![Command::Install { a, b, side: n }]) by {
            assert(rec_of(vp, a, n) is None);
            assert(model::install_cmds(a, n, s).len() == 1);
            assert(model::install_cmds(a, n, s)[0] == Command::Install { a, b, side: n });
        }
        assert(vk.queue =~= it_pairs(a, n, b, k)) by {
            assert(model::tear_cmds(a, n, s).len() == 1);
            assert(model::tear_cmds(a, n, s)[0] == Command::Teardown { a, b, side: n });
            lemma_it_pairs_snoc(a, n, b, k);
        }
        assert(vk.recs =~= v.recs) by {
            assert(vi.recs == set_recs(vp.recs, a, n, Option::Some(s)));
            assert(vk.recs == set_recs(vi.recs, a, n, Option::None));
            assert(model::rec_at(v.recs, a, n) is None);
        }
        assert(rec_of(vk, a, n) is None);
    }
}


/// Replacement is a diff, not a clear-then-set: replacing `a`'s side-`n`
/// value `{b, c}` with `{c, d}` (peer `d` holding no mirror yet) and
/// flushing leaves `c`'s mirror untouched with no event for `c`, removes
/// `a` from `b`'s mirror with one `Removed` event, and adds `a` to `d`'s
/// mirror with one `Added` event.
#[verifier::rlimit(100)]
pub proof fn lemma_replacement_diff(v: WorldView, a: usize, n: Side, b: usize, c: usize, d: usize)
    requires
        wf(v),
        queue_inv(v),
        v.queue.len() == 0,
        v.relation.side_ok(n),
        (a as int) < v.recs.len(),
        (b as int) < v.recs.len(),
        (c as int) < v.recs.len(),
        (d as int) < v.recs.len(),
        a != b && a != c && a != d && b != c && b != d && c != d,
        rec_of(v, a, n) == Option::Some(seq![b, c]),
        v.relation.spec_kind(n) != ContainerKind::Singleton,
        rec_of(v, d, v.relation.spec_opposite(n)) is None,
    ensures
        run(insert_spec(v, a, n, seq![c, d])).queue.len() == 0,
        run(insert_spec(v, a, n, seq![c, d])).events == v.events.push(
            RelationEvent::Removed(a, b),
        ).push(RelationEvent::Added(a, d)),
        rec_of(run(insert_spec(v, a, n, seq![c, d])), c, v.relation.spec_opposite(n)) == rec_of(
            v,
            c,
            v.relation.spec_opposite(n),
        ),
        rec_of(run(insert_spec(v, a, n, seq![c, d])), a, n) == Option::Some(seq![c, d]),
        rec_of(run(insert_spec(v, a, n, seq![c, d])), d, v.relation.spec_opposite(n))
            == Option::Some(seq![a]),
        !has_edge(run(insert_spec(v, a, n, seq![c, d])), b, v.relation.spec_opposite(n), a),
{
    let m = v.relation.spec_opposite(n);
    crate::relation::lemma_opposite_involutive(v.relation, n);
    let old_s = seq![b, c];
    let s = seq![c, d];
    assert(old_s[0] == b && old_s[1] == c && s[0] == c && s[1] == d);
    assert(old_s.contains(b) && old_s.contains(c) && s.contains(c) && s.contains(d));
    assert(!s.contains(b)) by {
        if s.contains(b) {
            let i = choose|i: int| 0 <= i < s.len() && s[i] == b;
            assert(i == 0 || i == 1);
        }
    }
    assert(!s.contains(a)) by {
        if s.contains(a) {
            let i = choose|i: int| 0 <= i < s.len() && s[i] == a;
            assert(i == 0 || i == 1);
        }
    }
    lemma_mirror_invariant(v, a, n, b);
    lemma_mirror_invariant(v, a, n, c);
    assert(has_edge(v, b, m, a));
    assert(has_edge(v, c, m, a));
    assert(forall|i: int| 0 <= i < s.len() ==> (s[i] as int) < v.recs.len());
    assert(crate::container::no_dups(s)) by {
        assert forall|i: int, j: int| 0 <= i < j < s.len() implies s[i] != s[j] by {
            assert(i == 0 && j == 1);
        }
    }
    model::lemma_insert_inv(v, a, n, s);
    let v1 = insert_spec(v, a, n, s);
    let t_ab = Command::Teardown { a, b, side: n };
    let t_ac = Command::Teardown { a, b: c, side: n };
    let i_ac = Command::Install { a, b: c, side: n };
    let i_ad = Command::Install { a, b: d, side: n };
    assert(v1.queue =~= seq![t_ab, t_ac, i_ac, i_ad]) by {
        assert(model::tear_cmds(a, n, old_s).len() == 2);
        assert(model::tear_cmds(a, n, old_s)[0] == t_ab);
        assert(model::tear_cmds(a, n, old_s)[1] == t_ac);
        assert(model::install_cmds(a, n, s).len() == 2);
        assert(model::install_cmds(a, n, s)[0] == i_ac);
        assert(model::install_cmds(a, n, s)[1] == i_ad);
    }
    assert(v1.recs == set_recs(v.recs, a, n, Option::Some(s)));
    assert(rec_of(v1, a, n) == Option::Some(s));
    assert(rec_of(v1, b, m) == rec_of(v, b, m));
    assert(rec_of(v1, c, m) == rec_of(v, c, m));
    assert(rec_of(v1, d, m) == rec_of(v, d, m));
    // step 1: tear down the edge to b
    assert(v1.queue[0] == t_ab);
    assert(has_edge(v1, b, m, a));
    assert(!has_edge(v1, a, n, b));
    model::lemma_step_wf(v1);
    let u1 = step(v1);
    let s_b = rec_of(v1, b, m)->0;
    let s2b = remove_all(s_b, a);
    crate::container::lemma_remove_all_contains(s_b, a);
    assert(u1.events == v.events.push(RelationEvent::Removed(a, b)));
    assert(rec_of(u1, a, n) == Option::Some(s));
    assert(rec_of(u1, c, m) == rec_of(v, c, m));
    assert(rec_of(u1, d, m) == rec_of(v, d, m));
    assert(!has_edge(u1, b, m, a));
    if s2b.len() == 0 {
        assert(u1.recs == set_recs(v1.recs, b, m, Option::None));
        assert(u1.queue =~= seq![t_ac, i_ac, i_ad, Command::Teardown { a: b, b: a, side: m }]);
    } else {
        assert(u1.recs == set_recs(v1.recs, b, m, Option::Some(s2b)));
        assert(u1.queue =~= seq![t_ac, i_ac, i_ad]);
    }
    // step 2: the edge to c is still wanted, so its teardown is skipped
    assert(u1.queue[0] == t_ac);
    assert(has_edge(u1, a, n, c));
    model::lemma_step_wf(u1);
    let u2 = step(u1);
    assert(u2.recs == u1.recs);
    assert(u2.events == u1.events);
    assert(u2.queue =~= u1.queue.drop_first());
    // step 3: the mirror on c is already correct, so its install is skipped
    assert(u2.queue[0] == i_ac);
    assert(has_edge(u2, c, m, a)) by {
        assert(rec_of(u2, c, m) == rec_of(v, c, m));
    }
    model::lemma_step_wf(u2);
    let u3 = step(u2);
    assert(u3.recs == u2.recs);
    assert(u3.events == u2.events);
    assert(u3.queue =~= u2.queue.drop_first());
    // step 4: the new edge to d is installed
    assert(u3.queue[0] == i_ad);
    assert(has_edge(u3, a, n, d)) by {
        assert(rec_of(u3, a, n) == Option::Some(s));
    }
    assert(rec_of(u3, d, m) is None) by {
        assert(rec_of(u3, d, m) == rec_of(v, d, m));
    }
    assert(!has_edge(u3, d, m, a));
    model::lemma_step_wf(u3);
    let u4 = step(u3);
    assert(u4.recs == set_recs(u3.recs, d, m, Option::Some(seq![a])));
    assert(u4.events == v.events.push(RelationEvent::Removed(a, b)).push(
        RelationEvent::Added(a, d),
    ));
    assert(u4.queue =~= u3.queue.drop_first());
    assert(rec_of(u4, a, n) == Option::Some(s));
    assert(rec_of(u4, c, m) == rec_of(v, c, m));
    assert(rec_of(u4, d, m) == Option::Some(seq![a]));
    assert(!has_edge(u4, b, m, a));
    assert(run(v1) == run(u1));
    assert(run(u1) == run(u2));
    assert(run(u2) == run(u3));
    assert(run(u3) == run(u4));
    if s2b.len() == 0 {
        // step 5: the cascaded teardown from b's emptied mirror is a no-op
        assert(u4.queue =~= seq![Command::Teardown { a: b, b: a, side: m }]);
        assert(!has_edge(u4, a, n, b)) by {
            assert(rec_of(u4, a, n) == Option::Some(s));
        }
        assert(!has_edge(u4, b, m, a));
        model::lemma_step_wf(u4);
        let u5 = step(u4);
        assert(u5.recs == u4.recs);
        assert(u5.events == u4.events);
        assert(u5.queue =~= Seq::<Command>::empty());
        assert(run(u4) == run(u5));
        assert(run(u5) == u5);
    } else {
        assert(u4.queue =~= Seq::<Command>::empty());
        assert(run(u4) == u4);
    }
}

} // verus!
