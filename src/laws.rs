use vstd::prelude::*;

use crate::model::{group_index, holds, lemma_push_consistent, GroupView, StoreModel};

verus! {

/// No member of `g` is queued in `m`.
pub open spec fn unqueued(m: StoreModel, g: GroupView) -> bool {
    forall|i: int| 0 <= i < g.len() ==> !m.index.contains_key(#[trigger] g[i])
}

/// The groups `g` and `h` share no member.
pub open spec fn disjoint(g: GroupView, h: GroupView) -> bool {
    forall|i: int| 0 <= i < g.len() ==> !h.contains(#[trigger] g[i])
}

proof fn lemma_filter_keeps_all(s: GroupView, pred: spec_fn(Seq<char>) -> bool)
    requires
        forall|i: int| 0 <= i < s.len() ==> pred(#[trigger] s[i]),
    ensures
        s.filter(pred) == s,
    decreases s.len(),
{
    reveal(Seq::filter);
    if s.len() > 0 {
        assert forall|i: int| 0 <= i < s.drop_last().len() implies pred(#[trigger] s.drop_last()[i]) by {
            assert(pred(s[i]));
        }
        lemma_filter_keeps_all(s.drop_last(), pred);
        assert(pred(s[s.len() - 1]));
        assert(s.drop_last().push(s.last()) =~= s);
    }
}

/// A group none of whose members is queued is pushed whole, at the tail.
pub proof fn lemma_push_fresh(m: StoreModel, name: Seq<char>, g: GroupView)
    requires
        unqueued(m, g),
        g.len() > 0,
    ensures
        m.fresh_part(g) == g,
        m.after_push(name, g).queue(name) == m.queue(name).push(g),
        forall|x: Seq<char>| x != name ==> #[trigger] m.after_push(name, g).queue(x) == m.queue(x),
        forall|x: Seq<char>| #[trigger] g.contains(x) ==> m.after_push(name, g).index.contains_key(x)
            && m.after_push(name, g).index[x] == name,
        forall|x: Seq<char>| !g.contains(x) ==> #[trigger] m.after_push(name, g).index.contains_key(x)
            == m.index.contains_key(x),
        forall|x: Seq<char>| !g.contains(x) && m.index.contains_key(x)
            ==> #[trigger] m.after_push(name, g).index[x] == m.index[x],
{
    let pred = |id: Seq<char>| !m.index.contains_key(id);
    lemma_filter_keeps_all(g, pred);
}

/// An identifier is in the index exactly when it is a member of one group of
/// one queue, and of no other group anywhere.
pub proof fn lemma_consistent_index_iff_single_membership(m: StoreModel, id: Seq<char>)
    requires
        m.consistent(),
    ensures
        m.index.contains_key(id) <==> exists|name: Seq<char>, g: int|
            #[trigger] holds(m.queues, name, g, id) && forall|n2: Seq<char>, g2: int|
                #[trigger] holds(m.queues, n2, g2, id) ==> n2 == name && g2 == g,
{
    if m.index.contains_key(id) {
        let g = choose|g: int| holds(m.queues, m.index[id], g, id);
        assert(holds(m.queues, m.index[id], g, id));
        assert forall|n2: Seq<char>, g2: int| #[trigger] holds(m.queues, n2, g2, id) implies n2
            == m.index[id] && g2 == g by {
            assert(holds(m.queues, n2, g2, id));
        }
    }
    if exists|name: Seq<char>, g: int| #[trigger] holds(m.queues, name, g, id) && forall|n2: Seq<char>, g2: int|
        #[trigger] holds(m.queues, n2, g2, id) ==> n2 == name && g2 == g {
        let (name, g) = choose|name: Seq<char>, g: int| #[trigger] holds(m.queues, name, g, id) && forall|
            n2: Seq<char>,
            g2: int,
        | #[trigger] holds(m.queues, n2, g2, id) ==> n2 == name && g2 == g;
        assert(holds(m.queues, name, g, id));
    }
}

/// Pushing a group of two unqueued participants to an empty queue, then
/// locating the first, finds that queue, position zero and the whole group.
pub proof fn lemma_push_then_locate(m: StoreModel, q: Seq<char>, a: Seq<char>, b: Seq<char>)
    requires
        m.consistent(),
        m.queue(q).len() == 0,
        !m.index.contains_key(a),
        !m.index.contains_key(b),
    ensures
        m.after_push(q, seq![a, b]).locate(a) == Some((q, 0int, seq![a, b])),
{
    let g = seq![a, b];
    assert(unqueued(m, g));
    lemma_push_fresh(m, q, g);
    let r = m.after_push(q, g);
    assert(g[0] == a);
    assert(g.contains(a));
    assert(r.queue(q) =~= seq![g]);
    let c = group_index(r.queue(q), a);
    assert(r.queue(q)[0].contains(a));
    assert(c == 0);
}

/// Pushing never moves a participant that is already queued: where it is
/// located, and with which group, stays as it was.
pub proof fn lemma_push_keeps_queued(m: StoreModel, name: Seq<char>, g: GroupView, id: Seq<char>)
    requires
        m.consistent(),
        m.index.contains_key(id),
    ensures
        m.after_push(name, g).index[id] == m.index[id],
        m.after_push(name, g).locate(id) == m.locate(id),
{
    let pred = |x: Seq<char>| !m.index.contains_key(x);
    let f = g.filter(pred);
    assert(m.fresh_part(g) == f);
    if f.len() > 0 {
        lemma_push_consistent(m, name, g);
        let r = m.after_push(name, g);
        assert(!f.contains(id)) by {
            if f.contains(id) {
                let i = choose|i: int| 0 <= i < f.len() && f[i] == id;
                g.lemma_filter_pred(pred, i);
            }
        }
        let qn = m.index[id];
        assert(r.index[id] == qn);
        let w = choose|w: int| holds(m.queues, qn, w, id);
        assert(holds(m.queues, qn, w, id));
        assert(holds(r.queues, qn, w, id));
        let c0 = group_index(m.queue(qn), id);
        let c1 = group_index(r.queue(qn), id);
        assert(m.queue(qn)[w].contains(id));
        assert(r.queue(qn)[w].contains(id));
        assert(holds(m.queues, qn, c0, id));
        assert(holds(r.queues, qn, c1, id));
        assert(holds(r.queues, qn, c0, id));
        assert(c0 == c1);
    }
}

/// Groups of distinct, unqueued participants pushed in turn to an empty
/// queue come out oldest first: popping two yields the first two, and the
/// third is left alone at the head.
pub proof fn lemma_pop_in_push_order(
    m: StoreModel,
    q: Seq<char>,
    g1: GroupView,
    g2: GroupView,
    g3: GroupView,
)
    requires
        m.consistent(),
        m.queue(q).len() == 0,
        g1.len() > 0,
        g2.len() > 0,
        g3.len() > 0,
        unqueued(m, g1),
        unqueued(m, g2),
        unqueued(m, g3),
        disjoint(g2, g1),
        disjoint(g3, g1),
        disjoint(g3, g2),
    ensures
        ({
            let m3 = m.after_push(q, g1).after_push(q, g2).after_push(q, g3);
            &&& m3.popped(q, 2) == seq![g1, g2]
            &&& m3.after_pop(q, 2).queue(q) == seq![g3]
        }),
{
    lemma_push_fresh(m, q, g1);
    let m1 = m.after_push(q, g1);
    assert(unqueued(m1, g2)) by {
        assert forall|i: int| 0 <= i < g2.len() implies !m1.index.contains_key(#[trigger] g2[i]) by {
            assert(!g1.contains(g2[i]));
        }
    }
    lemma_push_fresh(m1, q, g2);
    let m2 = m1.after_push(q, g2);
    assert(unqueued(m2, g3)) by {
        assert forall|i: int| 0 <= i < g3.len() implies !m2.index.contains_key(#[trigger] g3[i]) by {
            assert(!g1.contains(g3[i]));
            assert(!g2.contains(g3[i]));
        }
    }
    lemma_push_fresh(m2, q, g3);
    let m3 = m2.after_push(q, g3);
    assert(m3.queue(q) =~= seq![g1, g2, g3]);
    assert(m3.popped(q, 2) =~= seq![g1, g2]);
    assert(m3.queues.contains_key(q));
    assert(m3.after_pop(q, 2).queue(q) =~= seq![g3]);
}

/// Popping from an empty queue returns nothing and changes nothing.
pub proof fn lemma_pop_empty(m: StoreModel, q: Seq<char>, n: nat)
    requires
        m.queue(q).len() == 0,
    ensures
        m.popped(q, n) == Seq::<GroupView>::empty(),
        m.after_pop(q, n) == m,
{
    assert(m.popped(q, n) =~= Seq::<GroupView>::empty());
}

/// Removing a queued participant dissolves its whole group: the group leaves
/// its queue, and no member of it can be located any more.
pub proof fn lemma_remove_dissolves_group(m: StoreModel, id: Seq<char>)
    requires
        m.consistent(),
        m.index.contains_key(id),
    ensures
        ({
            let (name, p, g) = m.locate(id).unwrap();
            let r = m.after_remove(id);
            &&& r.queue(name) == m.queue(name).remove(p)
            &&& forall|x: Seq<char>| #[trigger] g.contains(x) ==> r.locate(x) is None
        }),
{
    let name = m.index[id];
    let w = choose|w: int| holds(m.queues, name, w, id);
    assert(holds(m.queues, name, w, id));
    let (n0, p, g) = m.locate(id).unwrap();
    let r = m.after_remove(id);
    assert forall|x: Seq<char>| #[trigger] g.contains(x) implies r.locate(x) is None by {
        assert(g.to_set().contains(x));
    }
}

/// Removing a participant that is not queued changes nothing.
pub proof fn lemma_remove_unqueued_is_noop(m: StoreModel, id: Seq<char>)
    requires
        !m.index.contains_key(id),
    ensures
        m.after_remove(id) == m,
{
}

/// Pushes of groups with no member in common to different queues do not
/// interfere: either order gives the same store, and both groups end up at
/// the tails of their queues, indexed to them.
pub proof fn lemma_disjoint_pushes_commute(
    m: StoreModel,
    n1: Seq<char>,
    g1: GroupView,
    n2: Seq<char>,
    g2: GroupView,
)
    requires
        m.consistent(),
        n1 != n2,
        g1.len() > 0,
        g2.len() > 0,
        unqueued(m, g1),
        unqueued(m, g2),
        disjoint(g2, g1),
    ensures
        ({
            let r = m.after_push(n1, g1).after_push(n2, g2);
            &&& r == m.after_push(n2, g2).after_push(n1, g1)
            &&& r.queue(n1) == m.queue(n1).push(g1)
            &&& r.queue(n2) == m.queue(n2).push(g2)
            &&& forall|x: Seq<char>| #[trigger] g1.contains(x) ==> r.index.contains_key(x) && r.index[x] == n1
            &&& forall|x: Seq<char>| #[trigger] g2.contains(x) ==> r.index.contains_key(x) && r.index[x] == n2
        }),
{
    assert(disjoint(g1, g2)) by {
        assert forall|i: int| 0 <= i < g1.len() implies !g2.contains(#[trigger] g1[i]) by {
            if g2.contains(g1[i]) {
                let j = choose|j: int| 0 <= j < g2.len() && g2[j] == g1[i];
                assert(!g1.contains(g2[j]));
            }
        }
    }
    lemma_push_fresh(m, n1, g1);
    let a1 = m.after_push(n1, g1);
    assert(unqueued(a1, g2)) by {
        assert forall|i: int| 0 <= i < g2.len() implies !a1.index.contains_key(#[trigger] g2[i]) by {
            assert(!g1.contains(g2[i]));
        }
    }
    lemma_push_fresh(a1, n2, g2);
    lemma_push_fresh(m, n2, g2);
    let b1 = m.after_push(n2, g2);
    assert(unqueued(b1, g1)) by {
        assert forall|i: int| 0 <= i < g1.len() implies !b1.index.contains_key(#[trigger] g1[i]) by {
            assert(!g2.contains(g1[i]));
        }
    }
    lemma_push_fresh(b1, n1, g1);
    let r = a1.after_push(n2, g2);
    let s = b1.after_push(n1, g1);
    assert(r.queues =~= s.queues);
    assert(r.index =~= s.index);
}

} // verus!
