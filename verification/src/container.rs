//! Containers for the peer entities one side of a relation points to. Four
//! shapes share one interface: a singleton (zero or one peer, sentinel for
//! "none"), a bounded inline list, an unbounded list, and a deduplicating
//! set. Removal deletes every occurrence of the given entity, for all kinds.

use vstd::prelude::*;
use crate::bounded::{bounded_view, sv_get, sv_len, sv_new, sv_push, sv_remove};
use crate::relation::ContainerKind;

verus! {

/// Sentinel entity identifier: marks an empty singleton container, so no
/// stored entity may carry it.
pub const NO_ENTITY: usize = usize::MAX;

/// `s` with every occurrence of `e` deleted, order otherwise kept.
pub open spec fn remove_all(s: Seq<usize>, e: usize) -> Seq<usize>
    decreases s.len(),
{
    if s.len() == 0 {
        Seq::empty()
    } else if s.last() == e {
        remove_all(s.drop_last(), e)
    } else {
        remove_all(s.drop_last(), e).push(s.last())
    }
}

/// No entity occurs twice.
pub open spec fn no_dups(s: Seq<usize>) -> bool {
    forall|i: int, j: int| 0 <= i < j < s.len() ==> s[i] != s[j]
}

/// What pushing `e` leaves a container of kind `kind` holding: a singleton is
/// overwritten, lists append, a deduplicating set appends only when absent.
pub open spec fn spec_push(kind: ContainerKind, s: Seq<usize>, e: usize) -> Seq<usize> {
    match kind {
        ContainerKind::Singleton => seq![e],
        ContainerKind::BoundedList => s.push(e),
        ContainerKind::UnboundedList => s.push(e),
        ContainerKind::DedupSet => if s.contains(e) {
            s
        } else {
            s.push(e)
        },
    }
}

proof fn lemma_remove_all_has(s: Seq<usize>, e: usize, x: usize)
    ensures
        remove_all(s, e).contains(x) <==> (s.contains(x) && x != e),
    decreases s.len(),
{
    if s.len() == 0 {
        assert(!s.contains(x));
        assert(!remove_all(s, e).contains(x));
    } else {
        let d = s.drop_last();
        lemma_remove_all_has(d, e, x);
        assert(s.contains(x) <==> (d.contains(x) || s.last() == x)) by {
            if s.contains(x) {
                let i = choose|i: int| 0 <= i < s.len() && s[i] == x;
                if i < s.len() - 1 {
                    assert(d[i] == x);
                    assert(d.contains(x));
                }
            }
            if d.contains(x) {
                let i = choose|i: int| 0 <= i < d.len() && d[i] == x;
                assert(s[i] == x);
                assert(s.contains(x));
            }
            if s.last() == x {
                assert(s[s.len() - 1] == x);
                assert(s.contains(x));
            }
        }
        if s.last() != e {
            let r = remove_all(d, e);
            let p = r.push(s.last());
            assert(remove_all(s, e) == p);
            assert(p.contains(x) <==> (r.contains(x) || s.last() == x)) by {
                if p.contains(x) {
                    let i = choose|i: int| 0 <= i < p.len() && p[i] == x;
                    if i < r.len() {
                        assert(r[i] == x);
                        assert(r.contains(x));
                    }
                }
                if r.contains(x) {
                    let i = choose|i: int| 0 <= i < r.len() && r[i] == x;
                    assert(p[i] == x);
                    assert(p.contains(x));
                }
                if s.last() == x {
                    assert(p[p.len() - 1] == x);
                    assert(p.contains(x));
                }
            }
        }
    }
}

proof fn lemma_remove_all_len(s: Seq<usize>, e: usize)
    ensures
        remove_all(s, e).len() <= s.len(),
    decreases s.len(),
{
    if s.len() > 0 {
        lemma_remove_all_len(s.drop_last(), e);
    }
}

pub proof fn lemma_remove_all_contains(s: Seq<usize>, e: usize)
    ensures
        forall|x: usize| remove_all(s, e).contains(x) <==> (s.contains(x) && x != e),
        remove_all(s, e).len() <= s.len(),
    decreases s.len(),
{
    assert forall|x: usize| remove_all(s, e).contains(x) <==> (s.contains(x) && x != e) by {
        lemma_remove_all_has(s, e, x);
    }
    lemma_remove_all_len(s, e);
}

pub proof fn lemma_remove_all_no_dups(s: Seq<usize>, e: usize)
    requires
        no_dups(s),
    ensures
        no_dups(remove_all(s, e)),
    decreases s.len(),
{
    if s.len() > 0 {
        let d = s.drop_last();
        assert(no_dups(d)) by {
            assert forall|i: int, j: int| 0 <= i < j < d.len() implies d[i] != d[j] by {
                assert(s[i] == d[i] && s[j] == d[j]);
            }
        }
        lemma_remove_all_no_dups(d, e);
        if s.last() != e {
            let r = remove_all(d, e);
            assert(!r.contains(s.last())) by {
                lemma_remove_all_contains(d, e);
                if d.contains(s.last()) {
                    let i = choose|i: int| 0 <= i < d.len() && d[i] == s.last();
                    assert(s[i] == s[s.len() - 1]);
                }
            }
            lemma_push_no_dups(r, s.last());
        }
    }
}

pub proof fn lemma_push_no_dups(s: Seq<usize>, e: usize)
    requires
        no_dups(s),
        !s.contains(e),
    ensures
        no_dups(s.push(e)),
{
    let p = s.push(e);
    assert forall|i: int, j: int| 0 <= i < j < p.len() implies p[i] != p[j] by {
        if j < s.len() {
        } else {
            assert(p[j] == e);
            assert(p[i] == s[i]);
            if s[i] == e {
                assert(s.contains(e));
            }
        }
    }
}

/// Storage for the peer entities one relation side holds.
#[derive(PartialEq, Eq, Debug)]
pub enum EntityContainer {
    Singleton(usize),
    BoundedList(crate::bounded::BoundedSlots),
    UnboundedList(Vec<usize>),
    DedupSet(Vec<usize>),
}

impl View for EntityContainer {
    type V = Seq<usize>;

    open spec fn view(&self) -> Seq<usize> {
        match self {
            EntityContainer::Singleton(v) => if *v == NO_ENTITY {
                Seq::empty()
            } else {
                seq![*v]
            },
            EntityContainer::BoundedList(l) => bounded_view(*l),
            EntityContainer::UnboundedList(l) => l@,
            EntityContainer::DedupSet(l) => l@,
        }
    }
}

impl EntityContainer {
    pub open spec fn kind(&self) -> ContainerKind {
        match self {
            EntityContainer::Singleton(_) => ContainerKind::Singleton,
            EntityContainer::BoundedList(_) => ContainerKind::BoundedList,
            EntityContainer::UnboundedList(_) => ContainerKind::UnboundedList,
            EntityContainer::DedupSet(_) => ContainerKind::DedupSet,
        }
    }

    /// Shape invariant: a deduplicating set holds no entity twice.
    pub open spec fn wf(&self) -> bool {
        self.kind() == ContainerKind::DedupSet ==> no_dups(self@)
    }

    /// An empty container of kind `kind`.
    pub fn empty(kind: ContainerKind) -> (r: EntityContainer)
        ensures
            r@ == Seq::<usize>::empty(),
            r.kind() == kind,
            r.wf(),
    {
        match kind {
            ContainerKind::Singleton => EntityContainer::Singleton(NO_ENTITY),
            ContainerKind::BoundedList => EntityContainer::BoundedList(sv_new()),
            ContainerKind::UnboundedList => EntityContainer::UnboundedList(Vec::new()),
            ContainerKind::DedupSet => EntityContainer::DedupSet(Vec::new()),
        }
    }

    /// A container of kind `kind` holding exactly `e`.
    pub fn new(kind: ContainerKind, e: usize) -> (r: EntityContainer)
        requires
            e != NO_ENTITY,
        ensures
            r@ == seq![e],
            r.kind() == kind,
            r.wf(),
    {
        match kind {
            ContainerKind::Singleton => EntityContainer::Singleton(e),
            ContainerKind::BoundedList => {
                let mut l = sv_new();
                sv_push(&mut l, e);
                proof {
                    assert(bounded_view(l) =~= seq![e]);
                }
                EntityContainer::BoundedList(l)
            },
            ContainerKind::UnboundedList => {
                let mut l: Vec<usize> = Vec::new();
                l.push(e);
                proof {
                    assert(l@ =~= seq![e]);
                }
                EntityContainer::UnboundedList(l)
            },
            ContainerKind::DedupSet => {
                let mut l: Vec<usize> = Vec::new();
                l.push(e);
                proof {
                    assert(l@ =~= seq![e]);
                }
                EntityContainer::DedupSet(l)
            },
        }
    }

    /// True when no entity is held.
    pub fn is_empty(&self) -> (r: bool)
        ensures
            r == (self@.len() == 0),
    {
        match self {
            EntityContainer::Singleton(v) => *v == NO_ENTITY,
            EntityContainer::BoundedList(l) => sv_len(l) == 0,
            EntityContainer::UnboundedList(l) => l.len() == 0,
            EntityContainer::DedupSet(l) => l.len() == 0,
        }
    }

    /// True when `e` is held.
    pub fn contains(&self, e: usize) -> (r: bool)
        ensures
            r == self@.contains(e),
    {
        match self {
            EntityContainer::Singleton(v) => {
                let r = *v != NO_ENTITY && *v == e;
                proof {
                    if *v != NO_ENTITY {
                        if *v == e {
                            assert(self@[0] == e);
                        } else {
                            assert(forall|i: int| 0 <= i < self@.len() ==> self@[i] != e);
                        }
                    }
                }
                r
            },
            EntityContainer::BoundedList(l) => sv_contains(l, e),
            EntityContainer::UnboundedList(l) => vec_contains(l, e),
            EntityContainer::DedupSet(l) => vec_contains(l, e),
        }
    }

    /// Adds `e`: a singleton is overwritten, lists append without
    /// deduplication, a deduplicating set ignores a present entity.
    pub fn push(&mut self, e: usize)
        requires
            old(self).wf(),
            e != NO_ENTITY,
        ensures
            final(self)@ == spec_push(old(self).kind(), old(self)@, e),
            final(self).kind() == old(self).kind(),
            final(self).wf(),
    {
        match self {
            EntityContainer::Singleton(v) => {
                *v = e;
                proof {
                    assert(self@ =~= seq![e]);
                }
            },
            EntityContainer::BoundedList(l) => sv_push(l, e),
            EntityContainer::UnboundedList(l) => l.push(e),
            EntityContainer::DedupSet(l) => {
                if !vec_contains(l, e) {
                    proof {
                        lemma_push_no_dups(l@, e);
                    }
                    l.push(e);
                }
            },
        }
    }

    /// Deletes every occurrence of `e`; deleting an absent entity is a no-op.
    pub fn remove(&mut self, e: usize)
        requires
            old(self).wf(),
        ensures
            final(self)@ == remove_all(old(self)@, e),
            final(self).kind() == old(self).kind(),
            final(self).wf(),
    {
        match self {
            EntityContainer::Singleton(v) => {
                proof {
                    lemma_singleton_remove(*v, e);
                }
                if *v == e {
                    *v = NO_ENTITY;
                }
            },
            EntityContainer::BoundedList(l) => sv_remove(l, e),
            EntityContainer::UnboundedList(l) => vec_remove_all(l, e),
            EntityContainer::DedupSet(l) => {
                proof {
                    lemma_remove_all_no_dups(l@, e);
                }
                vec_remove_all(l, e);
            },
        }
    }

    /// The held entities, in the container's iteration order.
    pub fn iter(&self) -> (r: Vec<usize>)
        ensures
            r@ == self@,
    {
        match self {
            EntityContainer::Singleton(v) => {
                let mut out: Vec<usize> = Vec::new();
                if *v != NO_ENTITY {
                    out.push(*v);
                }
                proof {
                    assert(out@ =~= self@);
                }
                out
            },
            EntityContainer::BoundedList(l) => {
                let n = sv_len(l);
                let mut out: Vec<usize> = Vec::new();
                let mut i: usize = 0;
                while i < n
                    invariant
                        i <= n,
                        n == bounded_view(*l).len(),
                        out@ =~= bounded_view(*l).subrange(0, i as int),
                    decreases n - i,
                {
                    out.push(sv_get(l, i));
                    i += 1;
                    proof {
                        assert(out@ =~= bounded_view(*l).subrange(0, i as int));
                    }
                }
                proof {
                    assert(bounded_view(*l).subrange(0, n as int) =~= bounded_view(*l));
                }
                out
            },
            EntityContainer::UnboundedList(l) => vec_dup(l),
            EntityContainer::DedupSet(l) => vec_dup(l),
        }
    }
}

proof fn lemma_singleton_remove(v: usize, e: usize)
    ensures
        v == NO_ENTITY ==> remove_all(Seq::<usize>::empty(), e) == Seq::<usize>::empty(),
        v != NO_ENTITY && v == e ==> remove_all(seq![v], e) == Seq::<usize>::empty(),
        v != NO_ENTITY && v != e ==> remove_all(seq![v], e) == seq![v],
{
    assert(remove_all(Seq::<usize>::empty(), e) == Seq::<usize>::empty());
    if v != NO_ENTITY {
        let s = seq![v];
        assert(s.last() == v);
        assert(s.drop_last() =~= Seq::<usize>::empty());
        if v != e {
            assert(remove_all(s, e) == remove_all(Seq::<usize>::empty(), e).push(v));
            assert(remove_all(s, e) =~= seq![v]);
        }
    }
}

fn vec_contains(l: &Vec<usize>, e: usize) -> (r: bool)
    ensures
        r == l@.contains(e),
{
    let mut i: usize = 0;
    while i < l.len()
        invariant
            i <= l@.len(),
            forall|j: int| 0 <= j < i ==> l@[j] != e,
        decreases l@.len() - i,
    {
        if l[i] == e {
            return true;
        }
        i += 1;
    }
    false
}

fn sv_contains(l: &crate::bounded::BoundedSlots, e: usize) -> (r: bool)
    ensures
        r == bounded_view(*l).contains(e),
{
    let n = sv_len(l);
    let mut i: usize = 0;
    while i < n
        invariant
            i <= n,
            n == bounded_view(*l).len(),
            forall|j: int| 0 <= j < i ==> bounded_view(*l)[j] != e,
        decreases n - i,
    {
        if sv_get(l, i) == e {
            return true;
        }
        i += 1;
    }
    false
}

fn vec_remove_all(l: &mut Vec<usize>, e: usize)
    ensures
        final(l)@ == remove_all(old(l)@, e),
{
    let ghost s = l@;
    let mut out: Vec<usize> = Vec::new();
    let mut i: usize = 0;
    while i < l.len()
        invariant
            i <= s.len(),
            l@ == s,
            out@ == remove_all(s.subrange(0, i as int), e),
        decreases s.len() - i,
    {
        proof {
            assert(s.subrange(0, i as int + 1).drop_last() =~= s.subrange(0, i as int));
            assert(s.subrange(0, i as int + 1).last() == s[i as int]);
        }
        if l[i] != e {
            out.push(l[i]);
        }
        i += 1;
    }
    proof {
        assert(s.subrange(0, s.len() as int) =~= s);
    }
    *l = out;
}

fn vec_dup(l: &Vec<usize>) -> (r: Vec<usize>)
    ensures
        r@ == l@,
{
    let mut out: Vec<usize> = Vec::new();
    let mut i: usize = 0;
    while i < l.len()
        invariant
            i <= l@.len(),
            out@ =~= l@.subrange(0, i as int),
        decreases l@.len() - i,
    {
        out.push(l[i]);
        i += 1;
        proof {
            assert(out@ =~= l@.subrange(0, i as int));
        }
    }
    proof {
        assert(l@.subrange(0, l@.len() as int) =~= l@);
    }
    out
}

} // verus!
