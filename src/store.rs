use vstd::prelude::*;

use crate::model::{group_index, holds, lemma_pop_consistent, lemma_pop_step, lemma_push_consistent,
    lemma_remove_consistent, lemma_with_queue_consistent, members, GroupView, QueueView, StoreModel};

verus! {

/// A named queue: its groups, oldest first.
struct NamedQueue {
    name: String,
    groups: Vec<Vec<String>>,
}

/// One entry of the reverse index.
struct Assignment {
    id: String,
    queue: String,
}

/// One group of a dumped queue, with its current position.
pub struct DumpedQueueEntry {
    pub position: usize,
    pub group: Vec<String>,
}

/// Where a participant is queued.
pub struct PlayerQueueInfo {
    pub queue: String,
    pub position: usize,
    pub group: Vec<String>,
}

/// The queue store: named FIFO queues of groups and the reverse index from a
/// queued participant to its queue, changed together by every operation.
pub struct QueueContext {
    queues: Vec<NamedQueue>,
    assigned: Vec<Assignment>,
    model: Ghost<StoreModel>,
}

impl View for QueueContext {
    type V = StoreModel;

    closed spec fn view(&self) -> StoreModel {
        self.model@
    }
}

/// A copy of a group, member by member.
fn copy_group(g: &Vec<String>) -> (r: Vec<String>)
    ensures
        r@ == g@,
{
    let mut r: Vec<String> = Vec::new();
    let mut i: usize = 0;
    while i < g.len()
        invariant
            i <= g@.len(),
            r@ == g@.take(i as int),
        decreases g@.len() - i,
    {
        r.push(g[i].clone());
        assert(g@.take(i + 1) =~= g@.take(i as int).push(g@[i as int]));
        i += 1;
    }
    assert(g@.take(g@.len() as int) =~= g@);
    r
}

/// Whether `id` is a member of `g`.
fn group_has(g: &Vec<String>, id: &String) -> (r: bool)
    ensures
        r == g.deep_view().contains(id@),
{
    let mut i: usize = 0;
    while i < g.len()
        invariant
            i <= g@.len(),
            forall|k: int| 0 <= k < i ==> #[trigger] g@[k]@ != id@,
        decreases g@.len() - i,
    {
        if g[i] == *id {
            assert(g.deep_view()[i as int] == id@);
            return true;
        }
        i += 1;
    }
    assert forall|k: int| 0 <= k < g.deep_view().len() implies #[trigger] g.deep_view()[k] != id@ by {
        assert(g@[k]@ != id@);
    }
    false
}

/// The position of the first group of `gs` that has `id` as a member, or the
/// number of groups if none has.
fn first_holding(gs: &Vec<Vec<String>>, id: &String) -> (p: usize)
    ensures
        p <= gs@.len(),
        forall|k: int| 0 <= k < p ==> !(#[trigger] gs.deep_view()[k]).contains(id@),
        p < gs@.len() ==> gs.deep_view()[p as int].contains(id@),
{
    let mut p: usize = 0;
    while p < gs.len()
        invariant
            p <= gs@.len(),
            forall|k: int| 0 <= k < p ==> !(#[trigger] gs.deep_view()[k]).contains(id@),
        decreases gs@.len() - p,
    {
        if group_has(&gs[p], id) {
            return p;
        }
        p += 1;
    }
    p
}

/// A copy of a queue's groups.
fn copy_groups(gs: &Vec<Vec<String>>) -> (r: Vec<Vec<String>>)
    ensures
        r.deep_view() == gs.deep_view(),
{
    let mut r: Vec<Vec<String>> = Vec::new();
    let mut i: usize = 0;
    while i < gs.len()
        invariant
            i <= gs@.len(),
            r.deep_view() == gs.deep_view().take(i as int),
        decreases gs@.len() - i,
    {
        let ghost rv = r.deep_view();
        let g = copy_group(&gs[i]);
        assert(g.deep_view() =~= gs.deep_view()[i as int]);
        r.push(g);
        assert(r.deep_view() =~= rv.push(gs.deep_view()[i as int]));
        assert(r.deep_view() =~= gs.deep_view().take(i + 1));
        i += 1;
    }
    assert(gs.deep_view().take(gs@.len() as int) =~= gs.deep_view());
    r
}

impl QueueContext {
    spec fn queues_match(&self) -> bool {
        &&& forall|i: int, j: int|
            0 <= i < self.queues@.len() && 0 <= j < self.queues@.len() && i != j
                ==> #[trigger] self.queues@[i].name@ != #[trigger] self.queues@[j].name@
        &&& forall|i: int|
            0 <= i < self.queues@.len() ==> self.model@.queues.contains_key(
                #[trigger] self.queues@[i].name@,
            ) && self.model@.queues[self.queues@[i].name@] == self.queues@[i].groups.deep_view()
        &&& forall|name: Seq<char>|
            #[trigger] self.model@.queues.contains_key(name) ==> exists|i: int|
                0 <= i < self.queues@.len() && #[trigger] self.queues@[i].name@ == name
    }

    spec fn index_match(&self) -> bool {
        &&& forall|i: int, j: int|
            0 <= i < self.assigned@.len() && 0 <= j < self.assigned@.len() && i != j
                ==> #[trigger] self.assigned@[i].id@ != #[trigger] self.assigned@[j].id@
        &&& forall|i: int|
            0 <= i < self.assigned@.len() ==> self.model@.index.contains_key(
                #[trigger] self.assigned@[i].id@,
            ) && self.model@.index[self.assigned@[i].id@] == self.assigned@[i].queue@
        &&& forall|id: Seq<char>|
            #[trigger] self.model@.index.contains_key(id) ==> exists|i: int|
                0 <= i < self.assigned@.len() && #[trigger] self.assigned@[i].id@ == id
    }

    /// The store's invariant: the queues and the index hold what the model
    /// says, and the model is consistent.
    pub closed spec fn wf(&self) -> bool {
        &&& self.queues_match()
        &&& self.index_match()
        &&& self.model@.consistent()
    }

    /// An empty store.
    pub fn new() -> (r: Self)
        ensures
            r.wf(),
            r@.queues == Map::<Seq<char>, QueueView>::empty(),
            r@.index == Map::<Seq<char>, Seq<char>>::empty(),
    {
        QueueContext {
            queues: Vec::new(),
            assigned: Vec::new(),
            model: Ghost(StoreModel { queues: Map::empty(), index: Map::empty() }),
        }
    }

    fn find_queue(&self, name: &String) -> (r: Option<usize>)
        requires
            self.queues_match(),
        ensures
            match r {
                Some(i) => i < self.queues@.len() && self.queues@[i as int].name@ == name@,
                None => !self@.queues.contains_key(name@),
            },
    {
        let mut i: usize = 0;
        while i < self.queues.len()
            invariant
                i <= self.queues@.len(),
                self.queues_match(),
                forall|j: int| 0 <= j < i ==> #[trigger] self.queues@[j].name@ != name@,
            decreases self.queues@.len() - i,
        {
            if self.queues[i].name == *name {
                return Some(i);
            }
            i += 1;
        }
        None
    }

    fn find_assignment(&self, id: &String) -> (r: Option<usize>)
        requires
            self.index_match(),
        ensures
            match r {
                Some(i) => i < self.assigned@.len() && self.assigned@[i as int].id@ == id@,
                None => !self@.index.contains_key(id@),
            },
    {
        let mut i: usize = 0;
        while i < self.assigned.len()
            invariant
                i <= self.assigned@.len(),
                self.index_match(),
                forall|j: int| 0 <= j < i ==> #[trigger] self.assigned@[j].id@ != id@,
            decreases self.assigned@.len() - i,
        {
            if self.assigned[i].id == *id {
                return Some(i);
            }
            i += 1;
        }
        None
    }


    /// Points each of `ids` at queue `name` in the index; none was queued before.
    fn register(&mut self, ids: &Vec<String>, name: &String)
        requires
            old(self).index_match(),
            forall|k: int| 0 <= k < ids@.len() ==> !old(self)@.index.contains_key(#[trigger] ids@[k]@),
        ensures
            final(self).index_match(),
            final(self).queues == old(self).queues,
            final(self)@.queues == old(self)@.queues,
            final(self)@.index == old(self)@.index.union_prefer_right(
                Map::new(|id: Seq<char>| ids.deep_view().contains(id), |id: Seq<char>| name@),
            ),
    {
        let ghost start = self@;
        let mut k: usize = 0;
        while k < ids.len()
            invariant
                k <= ids@.len(),
                self.index_match(),
                self.queues == old(self).queues,
                self@.queues == start.queues,
                forall|j: int| 0 <= j < ids@.len() ==> !start.index.contains_key(#[trigger] ids@[j]@),
                self@.index == start.index.union_prefer_right(
                    Map::new(|id: Seq<char>| ids.deep_view().take(k as int).contains(id), |id: Seq<char>| name@),
                ),
            decreases ids@.len() - k,
        {
            let ghost before = self@;
            let ghost idv = ids@[k as int]@;
            assert(ids.deep_view().take(k + 1) =~= ids.deep_view().take(k as int).push(idv));
            if self.find_assignment(&ids[k]).is_none() {
                let ghost prev = self.assigned@;
                self.assigned.push(Assignment { id: ids[k].clone(), queue: name.clone() });
                self.model = Ghost(StoreModel { queues: before.queues, index: before.index.insert(idv, name@) });
                assert(self.index_match()) by {
                    let n = prev.len() as int;
                    assert forall|i: int| 0 <= i < n implies #[trigger] self.assigned@[i] == prev[i] by {}
                    assert forall|i: int, j: int|
                        0 <= i < self.assigned@.len() && 0 <= j < self.assigned@.len() && i != j
                            implies #[trigger] self.assigned@[i].id@ != #[trigger] self.assigned@[j].id@ by {
                        if i < n && j < n {
                        } else if i < n {
                            assert(before.index.contains_key(prev[i].id@));
                        } else {
                            assert(before.index.contains_key(prev[j].id@));
                        }
                    }
                    assert forall|i: int| 0 <= i < self.assigned@.len() implies self.model@.index.contains_key(
                        #[trigger] self.assigned@[i].id@) && self.model@.index[self.assigned@[i].id@] == self.assigned@[i].queue@ by {
                        if i < n {
                            assert(before.index.contains_key(prev[i].id@));
                        }
                    }
                    assert forall|id: Seq<char>| #[trigger] self.model@.index.contains_key(id) implies exists|i: int|
                        0 <= i < self.assigned@.len() && #[trigger] self.assigned@[i].id@ == id by {
                        if id == idv {
                            assert(self.assigned@[n].id@ == id);
                        } else {
                            assert(before.index.contains_key(id));
                            let i = choose|i: int| 0 <= i < prev.len() && #[trigger] prev[i].id@ == id;
                            assert(self.assigned@[i] == prev[i]);
                        }
                    }
                }
            } else {
                assert(ids.deep_view().take(k as int).contains(idv));
            }
            assert forall|x: Seq<char>| #[trigger] ids.deep_view().take(k + 1).contains(x) <==> (
                ids.deep_view().take(k as int).contains(x) || x == idv) by {
                let t = ids.deep_view().take(k as int);
                assert(ids.deep_view().take(k + 1)[k as int] == idv);
                if t.contains(x) {
                    let j = choose|j: int| 0 <= j < t.len() && t[j] == x;
                    assert(ids.deep_view().take(k + 1)[j] == x);
                }
            }
            assert(self@.index =~= start.index.union_prefer_right(
                Map::new(|id: Seq<char>| ids.deep_view().take(k + 1).contains(id), |id: Seq<char>| name@)));
            k += 1;
        }
        assert(ids.deep_view().take(ids@.len() as int) =~= ids.deep_view());
    }


    /// Drops each of `ids` from the index.
    fn unregister(&mut self, ids: &Vec<String>)
        requires
            old(self).index_match(),
        ensures
            final(self).index_match(),
            final(self).queues == old(self).queues,
            final(self)@.queues == old(self)@.queues,
            final(self)@.index == old(self)@.index.remove_keys(ids.deep_view().to_set()),
    {
        let ghost start = self@;
        let mut k: usize = 0;
        while k < ids.len()
            invariant
                k <= ids@.len(),
                self.index_match(),
                self.queues == old(self).queues,
                self@.queues == start.queues,
                self@.index == start.index.remove_keys(ids.deep_view().take(k as int).to_set()),
            decreases ids@.len() - k,
        {
            let ghost before = self@;
            let ghost idv = ids@[k as int]@;
            match self.find_assignment(&ids[k]) {
                Some(j) => {
                    let ghost prev = self.assigned@;
                    self.assigned.remove(j);
                    self.model = Ghost(StoreModel { queues: before.queues, index: before.index.remove(idv) });
                    assert(self.index_match()) by {
                        assert forall|i: int| 0 <= i < self.assigned@.len() implies #[trigger] self.assigned@[i]
                            == prev[if i < j { i } else { i + 1 }] by {}
                        assert forall|i: int, i2: int|
                            0 <= i < self.assigned@.len() && 0 <= i2 < self.assigned@.len() && i != i2
                                implies #[trigger] self.assigned@[i].id@ != #[trigger] self.assigned@[i2].id@ by {
                            let a = if i < j { i } else { i + 1 };
                            let b = if i2 < j { i2 } else { i2 + 1 };
                            assert(prev[a].id@ != prev[b].id@);
                        }
                        assert forall|i: int| 0 <= i < self.assigned@.len() implies self.model@.index.contains_key(
                            #[trigger] self.assigned@[i].id@) && self.model@.index[self.assigned@[i].id@] == self.assigned@[i].queue@ by {
                            let a = if i < j { i } else { i + 1 };
                            assert(prev[a].id@ != prev[j as int].id@);
                            assert(before.index.contains_key(prev[a].id@));
                        }
                        assert forall|id: Seq<char>| #[trigger] self.model@.index.contains_key(id) implies exists|i: int|
                            0 <= i < self.assigned@.len() && #[trigger] self.assigned@[i].id@ == id by {
                            assert(before.index.contains_key(id));
                            let a = choose|a: int| 0 <= a < prev.len() && #[trigger] prev[a].id@ == id;
                            assert(a != j);
                            let i = if a < j { a } else { a - 1 };
                            assert(self.assigned@[i].id@ == id);
                        }
                    }
                },
                None => {},
            }
            assert(ids.deep_view().take(k + 1) =~= ids.deep_view().take(k as int).push(idv));
            proof { ids.deep_view().take(k as int).lemma_push_to_set_commute(idv); }
            assert(self@.index =~= start.index.remove_keys(ids.deep_view().take(k + 1).to_set()));
            k += 1;
        }
        assert(ids.deep_view().take(ids@.len() as int) =~= ids.deep_view());
    }

    /// The slot of queue `name`, created empty if it did not exist.
    fn slot_for(&mut self, name: &String) -> (s: usize)
        requires
            old(self).queues_match(),
        ensures
            final(self).queues_match(),
            final(self).assigned == old(self).assigned,
            final(self)@ == old(self)@.with_queue(name@),
            s < final(self).queues@.len(),
            final(self).queues@[s as int].name@ == name@,
    {
        match self.find_queue(name) {
            Some(i) => {
                assert(self@.with_queue(name@).queues =~= self@.queues);
                i
            },
            None => {
                let ghost before = self@;
                let ghost prev = self.queues@;
                self.queues.push(NamedQueue { name: name.clone(), groups: Vec::new() });
                self.model = Ghost(before.with_queue(name@));
                assert(self.queues_match()) by {
                    let n = prev.len() as int;
                    assert forall|i: int| 0 <= i < n implies #[trigger] self.queues@[i] == prev[i] by {}
                    assert(self.queues@[n].groups.deep_view() =~= Seq::<GroupView>::empty());
                    assert forall|i: int, j: int|
                        0 <= i < self.queues@.len() && 0 <= j < self.queues@.len() && i != j
                            implies #[trigger] self.queues@[i].name@ != #[trigger] self.queues@[j].name@ by {
                        if i < n && j < n {
                        } else if i < n {
                            assert(before.queues.contains_key(prev[i].name@));
                        } else {
                            assert(before.queues.contains_key(prev[j].name@));
                        }
                    }
                    assert forall|i: int| 0 <= i < self.queues@.len() implies self.model@.queues.contains_key(
                        #[trigger] self.queues@[i].name@) && self.model@.queues[self.queues@[i].name@]
                            == self.queues@[i].groups.deep_view() by {
                        if i < n {
                            assert(before.queues.contains_key(prev[i].name@));
                        }
                    }
                    assert forall|x: Seq<char>| #[trigger] self.model@.queues.contains_key(x) implies exists|i: int|
                        0 <= i < self.queues@.len() && #[trigger] self.queues@[i].name@ == x by {
                        if x == name@ {
                            assert(self.queues@[n].name@ == x);
                        } else {
                            let i = choose|i: int| 0 <= i < prev.len() && #[trigger] prev[i].name@ == x;
                            assert(self.queues@[i] == prev[i]);
                        }
                    }
                }
                self.queues.len() - 1
            },
        }
    }


    /// Puts `groups` in slot `s` and hands back the groups that were there.
    fn swap_groups(&mut self, s: usize, groups: Vec<Vec<String>>) -> (prev: Vec<Vec<String>>)
        requires
            old(self).queues_match(),
            s < old(self).queues@.len(),
        ensures
            final(self).queues_match(),
            final(self).assigned == old(self).assigned,
            final(self).queues@.len() == old(self).queues@.len(),
            final(self).queues@[s as int].name@ == old(self).queues@[s as int].name@,
            final(self)@.index == old(self)@.index,
            final(self)@.queues == old(self)@.queues.insert(
                old(self).queues@[s as int].name@,
                groups.deep_view(),
            ),
            prev.deep_view() == old(self)@.queues[old(self).queues@[s as int].name@],
    {
        let ghost before = self@;
        let ghost prev_queues = self.queues@;
        let q = self.queues.remove(s);
        let NamedQueue { name, groups: prev } = q;
        let ghost nm = name@;
        self.queues.insert(s, NamedQueue { name, groups });
        self.model = Ghost(StoreModel { queues: before.queues.insert(nm, groups.deep_view()), index: before.index });
        assert(self.queues_match()) by {
            assert forall|i: int| 0 <= i < self.queues@.len() && i != s implies #[trigger] self.queues@[i]
                == prev_queues[i] by {}
            assert forall|i: int, j: int|
                0 <= i < self.queues@.len() && 0 <= j < self.queues@.len() && i != j
                    implies #[trigger] self.queues@[i].name@ != #[trigger] self.queues@[j].name@ by {
                assert(prev_queues[i].name@ != prev_queues[j].name@);
            }
            assert forall|i: int| 0 <= i < self.queues@.len() implies self.model@.queues.contains_key(
                #[trigger] self.queues@[i].name@) && self.model@.queues[self.queues@[i].name@]
                    == self.queues@[i].groups.deep_view() by {
                if i != s {
                    assert(prev_queues[i].name@ != prev_queues[s as int].name@);
                }
            }
            assert forall|x: Seq<char>| #[trigger] self.model@.queues.contains_key(x) implies exists|i: int|
                0 <= i < self.queues@.len() && #[trigger] self.queues@[i].name@ == x by {
                if x == nm {
                    assert(self.queues@[s as int].name@ == x);
                } else {
                    let i = choose|i: int| 0 <= i < prev_queues.len() && #[trigger] prev_queues[i].name@ == x;
                    assert(self.queues@[i].name@ == x);
                }
            }
        }
        prev
    }

    /// Pushes `group` to the tail of queue `name`, which is created if needed.
    /// Members that are already queued anywhere are dropped first; if none is
    /// left, nothing is pushed.
    pub fn push(&mut self, name: &String, group: Vec<String>)
        requires
            old(self).wf(),
        ensures
            final(self).wf(),
            final(self)@ == old(self)@.after_push(name@, group.deep_view()),
    {
        let ghost start = self@;
        let ghost gv = group.deep_view();
        let ghost pred: spec_fn(Seq<char>) -> bool = |id: Seq<char>| !start.index.contains_key(id);
        let mut fresh: Vec<String> = Vec::new();
        let mut i: usize = 0;
        while i < group.len()
            invariant
                i <= group@.len(),
                self.wf(),
                self@ == start,
                gv == group.deep_view(),
                forall|x: Seq<char>| #[trigger] pred(x) == !start.index.contains_key(x),
                fresh.deep_view() == gv.take(i as int).filter(pred),
            decreases group@.len() - i,
        {
            let ghost fv = fresh.deep_view();
            let queued = self.is_queued(&group[i]);
            assert(gv[i as int] == group@[i as int]@);
            assert(pred(gv[i as int]) == !queued);
            if !queued {
                fresh.push(group[i].clone());
                assert(fresh.deep_view() =~= fv.push(gv[i as int]));
            }
            proof {
                assert(gv.take(i + 1) =~= gv.take(i as int).push(gv[i as int]));
                gv.take(i as int).lemma_filter_push(gv[i as int], pred);
            }
            i += 1;
        }
        assert(gv.take(group@.len() as int) =~= gv);
        assert(fresh.deep_view() == start.fresh_part(gv));
        if fresh.len() == 0 {
            return;
        }
        proof {
            broadcast use vstd::seq_lib::group_filter_ensures;
            assert forall|k: int| 0 <= k < fresh@.len() implies !start.index.contains_key(#[trigger] fresh@[k]@) by {
                assert(pred(fresh.deep_view()[k]));
            }
        }
        self.register(&fresh, name);
        let s = self.slot_for(name);
        let mut gs = self.swap_groups(s, Vec::new());
        let ghost gsv = gs.deep_view();
        let ghost fv = fresh.deep_view();
        gs.push(fresh);
        assert(gs.deep_view() =~= gsv.push(fv));
        let _ = self.swap_groups(s, gs);
        proof {
            lemma_push_consistent(start, name@, gv);
            assert(self@.queues =~= start.after_push(name@, gv).queues);
        }
    }


    /// Pops the oldest group of queue `name`, if it has one.
    pub fn pop(&mut self, name: &String) -> (r: Option<Vec<String>>)
        requires
            old(self).wf(),
        ensures
            final(self).wf(),
            final(self)@ == old(self)@.after_pop(name@, 1),
            match r {
                None => old(self)@.queue(name@).len() == 0,
                Some(g) => old(self)@.queue(name@).len() > 0 && g.deep_view() == old(self)@.queue(name@)[0],
            },
    {
        let ghost start = self@;
        match self.find_queue(name) {
            None => None,
            Some(s) => {
                assert(start.queue(name@) == self.queues@[s as int].groups.deep_view());
                if self.queues[s].groups.len() == 0 {
                    return None;
                }
                let mut gs = self.swap_groups(s, Vec::new());
                let ghost gsv = gs.deep_view();
                let g = gs.remove(0);
                assert(gs.deep_view() =~= gsv.skip(1));
                let _ = self.swap_groups(s, gs);
                self.unregister(&g);
                proof {
                    lemma_pop_consistent(start, name@, 1);
                    assert(members(gsv.take(1)) =~= g.deep_view().to_set()) by {
                        assert forall|id: Seq<char>| members(gsv.take(1)).contains(id) implies
                            g.deep_view().to_set().contains(id) by {
                            let j = choose|j: int| 0 <= j < gsv.take(1).len() && #[trigger] gsv.take(1)[j].contains(id);
                            assert(j == 0);
                        }
                        assert forall|id: Seq<char>| g.deep_view().to_set().contains(id) implies
                            members(gsv.take(1)).contains(id) by {
                            assert(gsv.take(1)[0].contains(id));
                        }
                    }
                    assert(self@.queues =~= start.after_pop(name@, 1).queues);
                    assert(self@.index =~= start.after_pop(name@, 1).index);
                }
                Some(g)
            },
        }
    }

    /// Pops up to `count` groups from the head of queue `name`, oldest first;
    /// fewer when the queue runs dry.
    pub fn pop_many(&mut self, name: &String, count: usize) -> (r: Vec<Vec<String>>)
        requires
            old(self).wf(),
        ensures
            final(self).wf(),
            final(self)@ == old(self)@.after_pop(name@, count as nat),
            r.deep_view() == old(self)@.popped(name@, count as nat),
    {
        let ghost start = self@;
        let mut r: Vec<Vec<String>> = Vec::new();
        let mut i: usize = 0;
        assert(start.after_pop(name@, 0) == start);
        assert(r.deep_view() =~= start.popped(name@, 0));
        while i < count
            invariant
                i <= count,
                start == old(self)@,
                self.wf(),
                self@ == start.after_pop(name@, i as nat),
                r.deep_view() == start.popped(name@, i as nat),
            decreases count - i,
        {
            proof {
                lemma_pop_step(start, name@, i as nat);
            }
            let ghost rv = r.deep_view();
            match self.pop(name) {
                Some(g) => {
                    r.push(g);
                    assert(r.deep_view() =~= rv.push(g.deep_view()));
                },
                None => {
                    let ghost a = start.after_pop(name@, i as nat);
                    assert(a.queue(name@).len() == 0);
                    assert(start.after_pop(name@, (i + 1) as nat) == a);
                    assert(start.after_pop(name@, count as nat) == a);
                    assert(start.popped(name@, count as nat) == start.popped(name@, i as nat));
                    return r;
                },
            }
            i += 1;
        }
        r
    }


    /// Removes the whole group that holds `id`, and drops all its members from
    /// the index; does nothing if `id` is not queued.
    pub fn remove_player(&mut self, id: &String)
        requires
            old(self).wf(),
        ensures
            final(self).wf(),
            final(self)@ == old(self)@.after_remove(id@),
    {
        let ghost start = self@;
        let j = match self.find_assignment(id) {
            None => return,
            Some(j) => j,
        };
        let qname = self.assigned[j].queue.clone();
        assert(qname@ == start.index[id@]);
        let ghost w = choose|g: int| holds(start.queues, qname@, g, id@);
        assert(holds(start.queues, qname@, w, id@));
        // An indexed participant's queue exists and one of its groups holds
        // the participant, so the two early exits below are never taken.
        let s = match self.find_queue(&qname) {
            None => return,
            Some(s) => s,
        };
        let ghost q = start.queue(qname@);
        assert(q == self.queues@[s as int].groups.deep_view());
        let p = first_holding(&self.queues[s].groups, id);
        if p == self.queues[s].groups.len() {
            assert(!q[w].contains(id@));
            return;
        }
        proof {
            let c = group_index(q, id@);
            assert(q[w].contains(id@));
            assert(holds(start.queues, qname@, c, id@));
            assert(holds(start.queues, qname@, p as int, id@));
        }
        let mut gs = self.swap_groups(s, Vec::new());
        let ghost gsv = gs.deep_view();
        let g = gs.remove(p);
        assert(gs.deep_view() =~= gsv.remove(p as int));
        let _ = self.swap_groups(s, gs);
        self.unregister(&g);
        proof {
            lemma_remove_consistent(start, id@);
            assert(self@.queues =~= start.after_remove(id@).queues);
            assert(self@.index =~= start.after_remove(id@).index);
        }
    }

    /// Removes, in order, the group of each of `ids` that is queued.
    pub fn remove_players(&mut self, ids: &Vec<String>)
        requires
            old(self).wf(),
        ensures
            final(self).wf(),
            final(self)@ == old(self)@.after_remove_all(ids.deep_view()),
    {
        let ghost start = self@;
        let mut i: usize = 0;
        while i < ids.len()
            invariant
                i <= ids@.len(),
                self.wf(),
                self@ == start.after_remove_all(ids.deep_view().take(i as int)),
            decreases ids@.len() - i,
        {
            self.remove_player(&ids[i]);
            assert(ids.deep_view().take(i + 1).drop_last() =~= ids.deep_view().take(i as int));
            i += 1;
        }
        assert(ids.deep_view().take(ids@.len() as int) =~= ids.deep_view());
    }

    /// Pushes each of `groups` to queue `name`, in order, as `push` does.
    pub fn add_groups(&mut self, name: &String, groups: &Vec<Vec<String>>)
        requires
            old(self).wf(),
        ensures
            final(self).wf(),
            final(self)@ == old(self)@.after_push_all(name@, groups.deep_view()),
    {
        let ghost start = self@;
        let mut i: usize = 0;
        while i < groups.len()
            invariant
                i <= groups@.len(),
                self.wf(),
                self@ == start.after_push_all(name@, groups.deep_view().take(i as int)),
            decreases groups@.len() - i,
        {
            let g = copy_group(&groups[i]);
            assert(g.deep_view() =~= groups.deep_view()[i as int]);
            self.push(name, g);
            assert(groups.deep_view().take(i + 1).drop_last() =~= groups.deep_view().take(i as int));
            i += 1;
        }
        assert(groups.deep_view().take(groups@.len() as int) =~= groups.deep_view());
    }


    /// A copy of the groups of queue `name`, oldest first; the queue is
    /// created empty if it did not exist.
    pub fn get_queue(&mut self, name: &String) -> (r: Vec<Vec<String>>)
        requires
            old(self).wf(),
        ensures
            final(self).wf(),
            final(self)@ == old(self)@.with_queue(name@),
            r.deep_view() == old(self)@.queue(name@),
    {
        let ghost start = self@;
        let s = self.slot_for(name);
        proof {
            lemma_with_queue_consistent(start, name@);
        }
        copy_groups(&self.queues[s].groups)
    }

    /// Every group of queue `name`, oldest first, each with its current
    /// zero-based position; empty for a queue that was never pushed to.
    pub fn dump(&self, name: &String) -> (r: Vec<DumpedQueueEntry>)
        requires
            self.wf(),
        ensures
            r@.len() == self@.queue(name@).len(),
            forall|i: int| 0 <= i < r@.len() ==> (#[trigger] r@[i]).position == i
                && r@[i].group.deep_view() == self@.queue(name@)[i],
    {
        let mut r: Vec<DumpedQueueEntry> = Vec::new();
        match self.find_queue(name) {
            None => r,
            Some(s) => {
                let gs = &self.queues[s].groups;
                let ghost q = self@.queue(name@);
                assert(q == gs.deep_view());
                let mut i: usize = 0;
                while i < gs.len()
                    invariant
                        i <= gs@.len(),
                        q == gs.deep_view(),
                        r@.len() == i,
                        forall|k: int| 0 <= k < i ==> (#[trigger] r@[k]).position == k
                            && r@[k].group.deep_view() == q[k],
                    decreases gs@.len() - i,
                {
                    let g = copy_group(&gs[i]);
                    assert(g.deep_view() =~= q[i as int]);
                    r.push(DumpedQueueEntry { position: i, group: g });
                    i += 1;
                }
                r
            },
        }
    }

    /// Where `id` is queued: the queue's name, the position of its group and
    /// the group; `None` if it is not queued.
    pub fn locate(&self, id: &String) -> (r: Option<PlayerQueueInfo>)
        requires
            self.wf(),
        ensures
            match r {
                None => self@.locate(id@) is None,
                Some(info) => self@.locate(id@) == Some(
                    (info.queue@, info.position as int, info.group.deep_view()),
                ),
            },
    {
        let ghost m = self@;
        let j = match self.find_assignment(id) {
            None => return None,
            Some(j) => j,
        };
        let qname = self.assigned[j].queue.clone();
        let ghost w = choose|g: int| holds(m.queues, qname@, g, id@);
        assert(holds(m.queues, qname@, w, id@));
        // An indexed participant's queue exists and one of its groups holds
        // the participant, so the two early exits below are never taken.
        let s = match self.find_queue(&qname) {
            None => return None,
            Some(s) => s,
        };
        let ghost q = m.queue(qname@);
        let gs = &self.queues[s].groups;
        assert(q == gs.deep_view());
        let p = first_holding(gs, id);
        if p == gs.len() {
            assert(!q[w].contains(id@));
            return None;
        }
        proof {
            let c = group_index(q, id@);
            assert(q[w].contains(id@));
            assert(holds(m.queues, qname@, c, id@));
            assert(holds(m.queues, qname@, p as int, id@));
        }
        let group = copy_group(&gs[p]);
        assert(group.deep_view() =~= q[p as int]);
        Some(PlayerQueueInfo { queue: qname, position: p, group })
    }

    /// Whether `id` is queued anywhere.
    pub fn is_queued(&self, id: &String) -> (r: bool)
        requires
            self.wf(),
        ensures
            r == self@.index.contains_key(id@),
    {
        self.find_assignment(id).is_some()
    }
}

/// In a well-formed store an identifier is in the index exactly when it is a
/// member of one group of one queue, and of no other group anywhere.
pub proof fn lemma_index_iff_single_membership(c: &QueueContext, id: Seq<char>)
    requires
        c.wf(),
    ensures
        c@.consistent(),
        c@.index.contains_key(id) <==> exists|name: Seq<char>, g: int|
            #[trigger] holds(c@.queues, name, g, id) && forall|n2: Seq<char>, g2: int|
                #[trigger] holds(c@.queues, n2, g2, id) ==> n2 == name && g2 == g,
{
    crate::laws::lemma_consistent_index_iff_single_membership(c@, id);
}

} // verus!
