use vstd::prelude::*;

verus! {

/// A group as seen by contracts: the identifiers of its members, in order.
pub type GroupView = Seq<Seq<char>>;

/// A queue as seen by contracts: its groups, oldest first.
pub type QueueView = Seq<GroupView>;

/// The abstract state of a store: every queue that was ever created, by name,
/// and the reverse index from a queued identifier to its queue's name.
pub struct StoreModel {
    pub queues: Map<Seq<char>, QueueView>,
    pub index: Map<Seq<char>, Seq<char>>,
}

/// Group `g` of queue `name` exists in `qs` and has `id` among its members.
pub open spec fn holds(qs: Map<Seq<char>, QueueView>, name: Seq<char>, g: int, id: Seq<char>) -> bool {
    &&& qs.contains_key(name)
    &&& 0 <= g < qs[name].len()
    &&& qs[name][g].contains(id)
}

/// Every identifier that is a member of some group of `gs`.
pub open spec fn members(gs: QueueView) -> Set<Seq<char>> {
    Set::new(|id: Seq<char>| exists|g: int| 0 <= g < gs.len() && #[trigger] gs[g].contains(id))
}

/// The position of a group of `q` that holds `id`.
pub open spec fn group_index(q: QueueView, id: Seq<char>) -> int {
    choose|g: int| 0 <= g < q.len() && #[trigger] q[g].contains(id)
}

impl StoreModel {
    /// The groups of queue `name`; a queue never created reads as empty.
    pub open spec fn queue(self, name: Seq<char>) -> QueueView {
        if self.queues.contains_key(name) {
            self.queues[name]
        } else {
            Seq::empty()
        }
    }

    /// The members of `group` that are not queued yet.
    pub open spec fn fresh_part(self, group: GroupView) -> GroupView {
        group.filter(|id: Seq<char>| !self.index.contains_key(id))
    }

    /// The central invariant: an identifier is in the index exactly when it is
    /// a member of one group of one queue, and the index names that queue.
    /// Groups are never empty.
    pub open spec fn consistent(self) -> bool {
        &&& forall|name: Seq<char>, g: int, id: Seq<char>|
            #[trigger] holds(self.queues, name, g, id) ==> self.index.contains_key(id)
                && self.index[id] == name
        &&& forall|id: Seq<char>|
            #[trigger] self.index.contains_key(id) ==> exists|g: int|
                holds(self.queues, self.index[id], g, id)
        &&& forall|name: Seq<char>, g1: int, g2: int, id: Seq<char>|
            #[trigger] holds(self.queues, name, g1, id) && #[trigger] holds(self.queues, name, g2, id)
                ==> g1 == g2
        &&& forall|name: Seq<char>, g: int|
            self.queues.contains_key(name) && 0 <= g < self.queues[name].len()
                ==> #[trigger] self.queues[name][g].len() > 0
    }

    /// The store with queue `name` created, empty, if it did not exist.
    pub open spec fn with_queue(self, name: Seq<char>) -> StoreModel {
        StoreModel { queues: self.queues.insert(name, self.queue(name)), index: self.index }
    }

    /// The store after pushing `group` to queue `name`: members already queued
    /// are dropped, and nothing happens if none is left.
    pub open spec fn after_push(self, name: Seq<char>, group: GroupView) -> StoreModel {
        let f = self.fresh_part(group);
        if f.len() == 0 {
            self
        } else {
            StoreModel {
                queues: self.queues.insert(name, self.queue(name).push(f)),
                index: self.index.union_prefer_right(
                    Map::new(|id: Seq<char>| f.contains(id), |id: Seq<char>| name),
                ),
            }
        }
    }

    /// The store after pushing each of `groups` to queue `name`, in order.
    pub open spec fn after_push_all(self, name: Seq<char>, groups: Seq<GroupView>) -> StoreModel
        decreases groups.len(),
    {
        if groups.len() == 0 {
            self
        } else {
            self.after_push_all(name, groups.drop_last()).after_push(name, groups.last())
        }
    }

    /// How many groups a pop of up to `n` groups from queue `name` takes.
    pub open spec fn pop_count(self, name: Seq<char>, n: nat) -> nat {
        if n <= self.queue(name).len() {
            n
        } else {
            self.queue(name).len()
        }
    }

    /// The groups that a pop of up to `n` groups from queue `name` returns.
    pub open spec fn popped(self, name: Seq<char>, n: nat) -> Seq<GroupView> {
        self.queue(name).take(self.pop_count(name, n) as int)
    }

    /// The store after popping up to `n` groups from the head of queue `name`.
    pub open spec fn after_pop(self, name: Seq<char>, n: nat) -> StoreModel {
        let k = self.pop_count(name, n);
        if k == 0 {
            self
        } else {
            StoreModel {
                queues: self.queues.insert(name, self.queue(name).skip(k as int)),
                index: self.index.remove_keys(members(self.popped(name, n))),
            }
        }
    }

    /// The store after removing the whole group that holds `id`, if any.
    pub open spec fn after_remove(self, id: Seq<char>) -> StoreModel {
        if !self.index.contains_key(id) {
            self
        } else {
            let name = self.index[id];
            let q = self.queue(name);
            let g = group_index(q, id);
            StoreModel {
                queues: self.queues.insert(name, q.remove(g)),
                index: self.index.remove_keys(q[g].to_set()),
            }
        }
    }

    /// The store after removing, in order, the group of each of `ids`.
    pub open spec fn after_remove_all(self, ids: Seq<Seq<char>>) -> StoreModel
        decreases ids.len(),
    {
        if ids.len() == 0 {
            self
        } else {
            self.after_remove_all(ids.drop_last()).after_remove(ids.last())
        }
    }

    /// Where `id` is queued: its queue's name, its group's position and the group.
    pub open spec fn locate(self, id: Seq<char>) -> Option<(Seq<char>, int, GroupView)> {
        if self.index.contains_key(id) {
            let name = self.index[id];
            let q = self.queue(name);
            let g = group_index(q, id);
            Some((name, g, q[g]))
        } else {
            None
        }
    }
}

/// A consistent store stays consistent when a group is pushed.
pub proof fn lemma_push_consistent(m: StoreModel, name: Seq<char>, group: GroupView)
    requires
        m.consistent(),
    ensures
        m.after_push(name, group).consistent(),
{
    let pred = |id: Seq<char>| !m.index.contains_key(id);
    let f = group.filter(pred);
    broadcast use vstd::seq_lib::group_filter_ensures;
    assert(m.fresh_part(group) == f);
    if f.len() > 0 {
        let r = m.after_push(name, group);
        let q = m.queue(name);
        assert forall|id: Seq<char>| f.contains(id) implies !m.index.contains_key(id) by {
            let i = choose|i: int| 0 <= i < f.len() && f[i] == id;
            assert(pred(f[i]));
        }
        assert forall|n: Seq<char>, g: int, id: Seq<char>| #[trigger]
            holds(r.queues, n, g, id) implies r.index.contains_key(id) && r.index[id] == n by {
            if n == name && g == q.len() {
                assert(r.queues[n][g] == f);
            } else {
                assert(holds(m.queues, n, g, id));
            }
        }
        assert forall|id: Seq<char>| #[trigger] r.index.contains_key(id) implies exists|g: int|
            holds(r.queues, r.index[id], g, id) by {
            if f.contains(id) {
                assert(r.queues[name][q.len() as int] == f);
                assert(holds(r.queues, name, q.len() as int, id));
            } else {
                let g = choose|g: int| holds(m.queues, m.index[id], g, id);
                assert(holds(r.queues, r.index[id], g, id));
            }
        }
        assert forall|n: Seq<char>, g1: int, g2: int, id: Seq<char>|
            #[trigger] holds(r.queues, n, g1, id) && #[trigger] holds(r.queues, n, g2, id)
                implies g1 == g2 by {
            if n == name && g1 == q.len() && g2 != q.len() {
                assert(holds(m.queues, n, g2, id));
                assert(r.queues[n][g1] == f);
            } else if n == name && g2 == q.len() && g1 != q.len() {
                assert(holds(m.queues, n, g1, id));
                assert(r.queues[n][g2] == f);
            } else if !(n == name && g1 == q.len()) {
                assert(holds(m.queues, n, g1, id));
                assert(holds(m.queues, n, g2, id));
            }
        }
        assert forall|n: Seq<char>, g: int|
            r.queues.contains_key(n) && 0 <= g < r.queues[n].len() implies
            #[trigger] r.queues[n][g].len() > 0 by {
            if n == name && g == q.len() {
                assert(r.queues[n][g] == f);
            }
        }
    }
}

/// A consistent store stays consistent when groups are popped.
pub proof fn lemma_pop_consistent(m: StoreModel, name: Seq<char>, n: nat)
    requires
        m.consistent(),
    ensures
        m.after_pop(name, n).consistent(),
{
    let k = m.pop_count(name, n) as int;
    if k > 0 {
        let r = m.after_pop(name, n);
        let q = m.queue(name);
        let taken = m.popped(name, n);
        assert(m.queues.contains_key(name));
        assert forall|x: Seq<char>, g: int, id: Seq<char>| #[trigger]
            holds(r.queues, x, g, id) implies r.index.contains_key(id) && r.index[id] == x by {
            if x == name {
                assert(holds(m.queues, name, g + k, id));
                if members(taken).contains(id) {
                    let g2 = choose|g2: int| 0 <= g2 < taken.len() && #[trigger] taken[g2].contains(id);
                    assert(holds(m.queues, name, g2, id));
                }
            } else {
                assert(holds(m.queues, x, g, id));
                if members(taken).contains(id) {
                    let g2 = choose|g2: int| 0 <= g2 < taken.len() && #[trigger] taken[g2].contains(id);
                    assert(holds(m.queues, name, g2, id));
                }
            }
        }
        assert forall|id: Seq<char>| #[trigger] r.index.contains_key(id) implies exists|g: int|
            holds(r.queues, r.index[id], g, id) by {
            let g = choose|g: int| holds(m.queues, m.index[id], g, id);
            if m.index[id] == name {
                if g < k {
                    assert(taken[g].contains(id));
                    assert(members(taken).contains(id));
                }
                assert(holds(r.queues, r.index[id], g - k, id));
            } else {
                assert(holds(r.queues, r.index[id], g, id));
            }
        }
        assert forall|x: Seq<char>, g1: int, g2: int, id: Seq<char>|
            #[trigger] holds(r.queues, x, g1, id) && #[trigger] holds(r.queues, x, g2, id)
                implies g1 == g2 by {
            if x == name {
                assert(holds(m.queues, x, g1 + k, id));
                assert(holds(m.queues, x, g2 + k, id));
            } else {
                assert(holds(m.queues, x, g1, id));
                assert(holds(m.queues, x, g2, id));
            }
        }
        assert forall|x: Seq<char>, g: int|
            r.queues.contains_key(x) && 0 <= g < r.queues[x].len() implies
            #[trigger] r.queues[x][g].len() > 0 by {
            if x == name {
                assert(r.queues[x][g] == m.queues[x][g + k]);
            }
        }
    }
}

/// A consistent store stays consistent when a participant's group is removed.
pub proof fn lemma_remove_consistent(m: StoreModel, id0: Seq<char>)
    requires
        m.consistent(),
    ensures
        m.after_remove(id0).consistent(),
{
    if m.index.contains_key(id0) {
        let r = m.after_remove(id0);
        let name = m.index[id0];
        let q = m.queue(name);
        let w = choose|g: int| holds(m.queues, name, g, id0);
        assert(0 <= w < q.len() && q[w].contains(id0));
        let p = group_index(q, id0);
        assert(0 <= p < q.len() && q[p].contains(id0));
        let gone = q[p].to_set();
        assert forall|x: Seq<char>, g: int, id: Seq<char>| #[trigger]
            holds(r.queues, x, g, id) implies r.index.contains_key(id) && r.index[id] == x by {
            if x == name {
                let og = if g < p { g } else { g + 1 };
                assert(r.queues[x][g] == q[og]);
                assert(holds(m.queues, x, og, id));
                if gone.contains(id) {
                    assert(holds(m.queues, x, p, id));
                }
            } else {
                assert(holds(m.queues, x, g, id));
                if gone.contains(id) {
                    assert(holds(m.queues, name, p, id));
                }
            }
        }
        assert forall|id: Seq<char>| #[trigger] r.index.contains_key(id) implies exists|g: int|
            holds(r.queues, r.index[id], g, id) by {
            let g = choose|g: int| holds(m.queues, m.index[id], g, id);
            if m.index[id] == name {
                if g == p {
                    assert(gone.contains(id));
                }
                let ng = if g < p { g } else { g - 1 };
                assert(r.queues[name][ng] == q[g]);
                assert(holds(r.queues, r.index[id], ng, id));
            } else {
                assert(holds(r.queues, r.index[id], g, id));
            }
        }
        assert forall|x: Seq<char>, g1: int, g2: int, id: Seq<char>|
            #[trigger] holds(r.queues, x, g1, id) && #[trigger] holds(r.queues, x, g2, id)
                implies g1 == g2 by {
            if x == name {
                let o1 = if g1 < p { g1 } else { g1 + 1 };
                let o2 = if g2 < p { g2 } else { g2 + 1 };
                assert(r.queues[x][g1] == q[o1]);
                assert(r.queues[x][g2] == q[o2]);
                assert(holds(m.queues, x, o1, id));
                assert(holds(m.queues, x, o2, id));
            } else {
                assert(holds(m.queues, x, g1, id));
                assert(holds(m.queues, x, g2, id));
            }
        }
        assert forall|x: Seq<char>, g: int|
            r.queues.contains_key(x) && 0 <= g < r.queues[x].len() implies
            #[trigger] r.queues[x][g].len() > 0 by {
            if x == name {
                let og = if g < p { g } else { g + 1 };
                assert(r.queues[x][g] == q[og]);
            }
        }
    }
}

/// Popping `n` groups and then one more is popping `n + 1`; once the queue
/// runs dry, asking for more pops nothing more.
pub proof fn lemma_pop_step(m: StoreModel, name: Seq<char>, n: nat)
    ensures
        m.after_pop(name, n).after_pop(name, 1) == m.after_pop(name, n + 1),
        m.after_pop(name, n).queue(name).len() > 0 ==> m.popped(name, n + 1) == m.popped(
            name,
            n,
        ).push(m.after_pop(name, n).queue(name)[0]),
        m.after_pop(name, n).queue(name).len() == 0 ==> forall|c: nat|
            c >= n ==> #[trigger] m.after_pop(name, c) == m.after_pop(name, n) && m.popped(name, c)
                == m.popped(name, n),
{
    let q = m.queue(name);
    let k = m.pop_count(name, n) as int;
    let a = m.after_pop(name, n);
    if k < q.len() {
        assert(m.queues.contains_key(name));
        assert(a.queue(name) =~= q.skip(k));
        let b = a.after_pop(name, 1);
        let c = m.after_pop(name, n + 1);
        assert(q.take(k + 1) =~= q.take(k).push(q[k]));
        assert(a.popped(name, 1) =~= seq![q[k]]);
        assert(b.queues =~= c.queues) by {
            assert(q.skip(k).skip(1) =~= q.skip(k + 1));
        }
        assert(members(q.take(k + 1)) =~= members(q.take(k)).union(members(seq![q[k]]))) by {
            assert forall|id: Seq<char>| members(q.take(k + 1)).contains(id) implies
                members(q.take(k)).union(members(seq![q[k]])).contains(id) by {
                let g = choose|g: int| 0 <= g < q.take(k + 1).len() && #[trigger] q.take(k + 1)[g].contains(id);
                if g < k {
                    assert(q.take(k)[g].contains(id));
                } else {
                    assert(seq![q[k]][0].contains(id));
                }
            }
            assert forall|id: Seq<char>| members(q.take(k)).union(members(seq![q[k]])).contains(id)
                implies members(q.take(k + 1)).contains(id) by {
                if members(q.take(k)).contains(id) {
                    let g = choose|g: int| 0 <= g < q.take(k).len() && #[trigger] q.take(k)[g].contains(id);
                    assert(q.take(k + 1)[g].contains(id));
                } else {
                    let g = choose|g: int| 0 <= g < 1 && #[trigger] seq![q[k]][g].contains(id);
                    assert(q.take(k + 1)[k].contains(id));
                }
            }
        }
        if k == 0 {
            assert(members(q.take(0)) =~= Set::empty());
            assert(b.index =~= c.index);
        } else {
            assert(b.index =~= c.index);
        }
        assert(m.popped(name, n + 1) =~= m.popped(name, n).push(a.queue(name)[0]));
    } else {
        if k > 0 {
            assert(a.queue(name) =~= q.skip(k));
        }
        assert(a.after_pop(name, 1) == a);
        assert forall|c: nat| c >= n implies #[trigger] m.after_pop(name, c) == m.after_pop(name, n)
            && m.popped(name, c) == m.popped(name, n) by {
            assert(m.pop_count(name, c) == k);
        }
    }
}

/// Creating an empty queue keeps a consistent store consistent.
pub proof fn lemma_with_queue_consistent(m: StoreModel, name: Seq<char>)
    requires
        m.consistent(),
    ensures
        m.with_queue(name).consistent(),
{
    let r = m.with_queue(name);
    assert forall|n: Seq<char>, g: int, id: Seq<char>|
        #[trigger] holds(r.queues, n, g, id) == holds(m.queues, n, g, id) by {}
    assert forall|id: Seq<char>| #[trigger] r.index.contains_key(id) implies exists|g: int|
        holds(r.queues, r.index[id], g, id) by {
        let g = choose|g: int| holds(m.queues, m.index[id], g, id);
        assert(holds(r.queues, r.index[id], g, id));
    }
}

} // verus!
