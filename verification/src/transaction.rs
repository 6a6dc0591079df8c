use vstd::prelude::*;
use std::rc::Rc;

use crate::lambda::{IsLambda, opt_val};
use crate::node::{Kind, NodeData};
use crate::sodium_ctx::{PreTrans, SodiumCtxData};

verus! {

broadcast use vstd::seq_lib::group_to_multiset_ensures;

impl<V, F: IsLambda<V>> SodiumCtxData<V, F> {
    /// What the work queued before a propagation reports to the listeners.
    pub open spec fn pre_event(&self, p: PreTrans<V>) -> (usize, Rc<V>) {
        match p {
            PreTrans::Sample { listener, cell } => (listener, self.nodes@[cell as int].value.unwrap()),
            PreTrans::Emit { listener, value } => (listener, value),
        }
    }

    /// What the queued work `pre` reports, in order.
    pub open spec fn pre_events(&self, pre: Seq<PreTrans<V>>) -> Seq<(usize, Rc<V>)> {
        pre.map_values(|p: PreTrans<V>| self.pre_event(p))
    }

    /// The value that a node keeps when the transaction ends: a cell takes
    /// its new value if it has one.
    pub open spec fn committed(nd: NodeData<V, F>) -> Option<Rc<V>> {
        if nd.value is Some && nd.next is Some {
            nd.next
        } else {
            nd.value
        }
    }

    /// Reports to the listeners what the queued work asks for, in order, and
    /// empties that queue.
    pub fn run_pre_trans(&mut self)
        requires
            old(self).graph_wf(),
        ensures
            final(self).graph_wf(),
            final(self).pre_trans@.len() == 0,
            final(self).events@ == old(self).events@ + old(self).pre_events(old(self).pre_trans@),
            final(self).events@.len() == old(self).events@.len() + old(self).pre_trans@.len(),
            forall|j: int| 0 <= j < old(self).events@.len() ==> #[trigger] final(self).events@[j] == old(self).events@[j],
            forall|k: int|
                0 <= k < old(self).pre_trans@.len() ==> match #[trigger] old(self).pre_trans@[k] {
                    PreTrans::Sample { listener, cell } => final(self).events@[old(self).events@.len() + k] == (
                        listener,
                        old(self).nodes@[cell as int].value.unwrap(),
                    ),
                    PreTrans::Emit { listener, value } => final(self).events@[old(self).events@.len() + k] == (
                        listener,
                        value,
                    ),
                },
            final(self).nodes@ == old(self).nodes@,
            final(self).to_be_updated@ == old(self).to_be_updated@,
            final(self).deferred@ == old(self).deferred@,
            final(self).transaction_depth == old(self).transaction_depth,
    {
        let ghost start = *self;
        let ghost target = start.events@ + start.pre_events(start.pre_trans@);
        let mut k: usize = 0;
        proof {
            assert(self.events@ =~= target.subrange(0, start.events@.len() as int));
        }
        while k < self.pre_trans.len()
            invariant
                start.graph_wf(),
                k <= self.pre_trans@.len(),
                self.pre_trans@ == start.pre_trans@,
                self.nodes@ == start.nodes@,
                self.to_be_updated@ == start.to_be_updated@,
                self.deferred@ == start.deferred@,
                self.transaction_depth == start.transaction_depth,
                target == start.events@ + start.pre_events(start.pre_trans@),
                self.events@ == target.subrange(0, start.events@.len() + k),
            decreases self.pre_trans@.len() - k,
        {
            let ev = match &self.pre_trans[k] {
                PreTrans::Sample { listener, cell } => {
                    proof {
                        assert(start.pre_wf(start.pre_trans@[k as int]));
                    }
                    let v = match &self.nodes[*cell].value {
                        Some(r) => r.clone(),
                        None => vstd::pervasive::unreached(),
                    };
                    (*listener, v)
                },
                PreTrans::Emit { listener, value } => (*listener, value.clone()),
            };
            proof {
                assert(ev == start.pre_event(start.pre_trans@[k as int]));
            }
            let ghost ev0 = self.events@;
            self.events.push(ev);
            proof {
                let m = start.pre_events(start.pre_trans@);
                assert(m[k as int] == ev);
                assert(target.len() == start.events@.len() + start.pre_trans@.len());
                assert(target[start.events@.len() + k] == m[k as int]);
                assert(self.events@ =~= target.subrange(0, start.events@.len() + k + 1));
            }
            k = k + 1;
        }
        self.pre_trans = Vec::new();
        proof {
            assert(self.events@ =~= target);
            Self::lemma_same_graph_wf(&start, self);
            Self::lemma_pre_events_each(&start);
        }
    }

    /// The events that the queued work `self.pre_trans` reports, appended to
    /// `self.events`: one per item, in order, each naming the item's listener
    /// with the value of its cell (a `Sample`) or the value it carries (an
    /// `Emit`).
    pub proof fn lemma_pre_events_each(&self)
        ensures
            ({
                let e = self.events@ + self.pre_events(self.pre_trans@);
                &&& e.len() == self.events@.len() + self.pre_trans@.len()
                &&& forall|j: int| 0 <= j < self.events@.len() ==> #[trigger] e[j] == self.events@[j]
                &&& forall|k: int|
                    0 <= k < self.pre_trans@.len() ==> match #[trigger] self.pre_trans@[k] {
                        PreTrans::Sample { listener, cell } => e[self.events@.len() + k] == (
                            listener,
                            self.nodes@[cell as int].value.unwrap(),
                        ),
                        PreTrans::Emit { listener, value } => e[self.events@.len() + k] == (listener, value),
                    }
            }),
    {
        let e = self.events@ + self.pre_events(self.pre_trans@);
        assert forall|k: int| 0 <= k < self.pre_trans@.len() implies match #[trigger] self.pre_trans@[k] {
            PreTrans::Sample { listener, cell } => e[self.events@.len() + k] == (
                listener,
                self.nodes@[cell as int].value.unwrap(),
            ),
            PreTrans::Emit { listener, value } => e[self.events@.len() + k] == (listener, value),
        } by {
            assert(e[self.events@.len() + k] == self.pre_events(self.pre_trans@)[k]);
            assert(self.pre_events(self.pre_trans@)[k] == self.pre_event(self.pre_trans@[k]));
        }
    }

    /// Ends a transaction for the nodes: each cell takes its new value, if it
    /// has one, and no node keeps a new value.
    pub fn commit(&mut self)
        requires
            old(self).graph_wf(),
        ensures
            final(self).graph_wf(),
            Self::same_graph(old(self), final(self)),
            forall|j: int|
                0 <= j < old(self).len() ==> {
                    &&& (#[trigger] final(self).nodes@[j]).value == Self::committed(old(self).nodes@[j])
                    &&& final(self).nodes@[j].next is None
                    &&& final(self).nodes@[j].kind == old(self).nodes@[j].kind
                },
            final(self).to_be_updated@ == old(self).to_be_updated@,
            final(self).pre_trans@ == old(self).pre_trans@,
            final(self).deferred@ == old(self).deferred@,
            final(self).events@ == old(self).events@,
            final(self).transaction_depth == old(self).transaction_depth,
    {
        let ghost start = *self;
        let mut j: usize = 0;
        while j < self.nodes.len()
            invariant
                j <= self.len(),
                self.len() == start.len(),
                start.graph_wf(),
                forall|i: int|
                    0 <= i < start.len() ==> {
                        &&& (#[trigger] self.nodes@[i]).rank == start.nodes@[i].rank
                        &&& self.nodes@[i].dependencies@ == start.nodes@[i].dependencies@
                        &&& self.nodes@[i].dependents@ == start.nodes@[i].dependents@
                        &&& self.nodes@[i].alive == start.nodes@[i].alive
                        &&& self.nodes@[i].kind == start.nodes@[i].kind
                        &&& i < j ==> self.nodes@[i].value == Self::committed(start.nodes@[i])
                        &&& i < j ==> self.nodes@[i].next is None
                        &&& i >= j ==> self.nodes@[i] == start.nodes@[i]
                    },
                self.to_be_updated@ == start.to_be_updated@,
                self.pre_trans@ == start.pre_trans@,
                self.deferred@ == start.deferred@,
                self.events@ == start.events@,
                self.transaction_depth == start.transaction_depth,
            decreases start.len() - j,
        {
            if self.nodes[j].value.is_some() {
                let nv = match &self.nodes[j].next {
                    Some(r) => Some(r.clone()),
                    None => None,
                };
                match nv {
                    Some(r) => {
                        self.nodes[j].value = Some(r);
                    },
                    None => {},
                }
            }
            self.nodes[j].next = None;
            j = j + 1;
        }
        proof {
            Self::lemma_same_graph_wf(&start, self);
        }
    }

    pub proof fn lemma_same_graph_trans(a: &Self, b: &Self, c: &Self)
        requires
            Self::same_graph(a, b),
            Self::same_graph(b, c),
        ensures
            Self::same_graph(a, c),
    {
        assert forall|j: int| 0 <= j < a.len() implies {
            &&& (#[trigger] c.nodes@[j]).rank == a.nodes@[j].rank
            &&& c.nodes@[j].dependencies@ == a.nodes@[j].dependencies@
            &&& c.nodes@[j].dependents@ == a.nodes@[j].dependents@
            &&& c.nodes@[j].alive == a.nodes@[j].alive
            &&& c.nodes@[j].value is Some <==> a.nodes@[j].value is Some
            &&& c.nodes@[j].kind == a.nodes@[j].kind
        } by {
            assert(b.nodes@[j].rank == a.nodes@[j].rank);
        }
    }

    pub proof fn lemma_progress_same_graph(start: &Self, s: &Self, done: Seq<usize>)
        requires
            start.len() == s.len(),
            start.len() <= usize::MAX,
            Self::progress(start, s, done),
        ensures
            Self::same_graph(start, s),
            forall|j: int| 0 <= j < start.len() ==> (#[trigger] s.nodes@[j]).value == start.nodes@[j].value,
            forall|j: int|
                0 <= j < start.len() && Self::passive(start.nodes@[j].kind) ==> (#[trigger] s.nodes@[j]).next
                    == start.nodes@[j].next,
    {
        reveal(SodiumCtxData::progress_in);
        assert forall|j: int| 0 <= j < start.len() implies {
            &&& (#[trigger] s.nodes@[j]).rank == start.nodes@[j].rank
            &&& s.nodes@[j].dependencies@ == start.nodes@[j].dependencies@
            &&& s.nodes@[j].dependents@ == start.nodes@[j].dependents@
            &&& s.nodes@[j].alive == start.nodes@[j].alive
            &&& s.nodes@[j].value == start.nodes@[j].value
            &&& s.nodes@[j].kind == start.nodes@[j].kind
            &&& Self::passive(start.nodes@[j].kind) ==> s.nodes@[j].next == start.nodes@[j].next
        } by {
            let ju = j as usize;
            assert(ju as int == j);
            assert(s.nodes@[ju as int].rank == start.nodes@[ju as int].rank);
        }
    }

    /// The firings that the updates of `order` leave for later are each
    /// of a node of `order` whose own deferral is not empty.
    pub proof fn lemma_deferrals_rank(nodes: Seq<NodeData<V, F>>, order: Seq<usize>, r: int)
        requires
            forall|k: int|
                0 <= k < order.len() && Self::deferral(nodes, #[trigger] order[k]).len() > 0 ==> nodes[order[k] as int].rank
                    > r,
        ensures
            forall|j: int|
                0 <= j < Self::deferrals(nodes, order).len() ==> nodes[(#[trigger] Self::deferrals(nodes, order)[j]).0 as int].rank
                    > r,
        decreases order.len(),
    {
        if order.len() > 0 {
            let o = order.drop_last();
            assert forall|k: int|
                0 <= k < o.len() && Self::deferral(nodes, #[trigger] o[k]).len() > 0 implies nodes[o[k] as int].rank
                    > r by {
                assert(o[k] == order[k]);
            }
            Self::lemma_deferrals_rank(nodes, o, r);
            let x = order.last();
            assert(x == order[order.len() - 1]);
            let d0 = Self::deferrals(nodes, o);
            let dx = Self::deferral(nodes, x);
            let d = Self::deferrals(nodes, order);
            assert(d == d0 + dx);
            assert forall|j: int| 0 <= j < d.len() implies nodes[(#[trigger] d[j]).0 as int].rank > r by {
                if j < d0.len() {
                    assert(d[j] == d0[j]);
                } else {
                    assert(d[j] == dx[j - d0.len()]);
                    assert(dx[j - d0.len()].0 == x);
                }
            }
        }
    }

    /// A deferred firing of node `n` defers in turn only firings of nodes
    /// that rank above `n`: so when every pending firing ranks above `t`,
    /// every firing left after it does too.
    pub proof fn lemma_round_step_ranks(
        s0: &Self,
        s1: &Self,
        s2: &Self,
        s3: &Self,
        n: usize,
        v: V,
        order: Seq<usize>,
        t: int,
    )
        requires
            s0.graph_wf(),
            s0.quiet(),
            s0.len() <= usize::MAX,
            n < s0.len(),
            Self::defers(s0.nodes@[n as int].kind),
            s0.rank(n as int) >= t,
            forall|k: int| 0 <= k < s0.deferred@.len() ==> s0.rank((#[trigger] s0.deferred@[k]).0 as int) > t,
            Self::staged(s0, s1, n, v),
            s2.nodes@ == s1.nodes@,
            s2.to_be_updated@ == s1.to_be_updated@,
            s2.deferred@ == s1.deferred@,
            order.to_multiset() == s2.to_be_updated@.to_multiset(),
            s3.len() == s2.len(),
            Self::progress(s2, s3, s2.to_be_updated@),
            Self::deref_pairs(s3.deferred@) == Self::deref_pairs(s2.deferred@) + Self::deferrals(s3.nodes@, order),
            Self::same_graph(s0, s3),
            s3.graph_wf(),
        ensures
            forall|k: int| 0 <= k < s3.deferred@.len() ==> s0.rank((#[trigger] s3.deferred@[k]).0 as int) > t,
    {
        let q = s1.to_be_updated@;
        assert(q =~= q.subrange(0, q.len() as int));
        assert forall|k: int|
            0 <= k < order.len() && Self::deferral(s3.nodes@, #[trigger] order[k]).len() > 0 implies s3.nodes@[order[k] as int].rank
                > t by {
            let x = order[k];
            assert(order.contains(x));
            assert(order.to_multiset().count(x) > 0);
            assert(q.to_multiset().count(x) > 0);
            assert(q.contains(x));
            let w = choose|w: int| 0 <= w < q.len() && q[w] == x;
            assert(q.subrange(0, q.len() as int)[w] == x);
            assert(q.subrange(0, q.len() as int).contains(x));
            assert(s0.reaches(n, x));
            assert(x < s0.len());
            if x != n {
                s0.lemma_reach_raises_rank(n, x);
                assert(s3.nodes@[x as int].rank == s0.nodes@[x as int].rank);
            } else {
                assert(s0.node_wf(n as int));
                let src = s0.deps(n as int)[0];
                assert(s0.rank(src as int) < s0.rank(n as int));
                assert(!q.contains(src)) by {
                    if q.contains(src) {
                        let w2 = choose|w2: int| 0 <= w2 < q.len() && q[w2] == src;
                        assert(q.subrange(0, q.len() as int)[w2] == src);
                        assert(q.subrange(0, q.len() as int).contains(src));
                        assert(src != n);
                        s0.lemma_reach_raises_rank(n, src);
                    }
                }
                assert(s3.nodes@[src as int] == s2.nodes@[src as int]) by {
                    reveal(SodiumCtxData::progress_in);
                    assert(s3.nodes@[src as int] == s2.nodes@[src as int]);
                }
                assert(s1.nodes@[src as int] == s0.nodes@[src as int]);
                assert(s0.nodes@[src as int].next is None);
                assert(s3.nodes@[n as int].kind == s0.nodes@[n as int].kind);
                assert(s3.deps(n as int) == s0.deps(n as int));
                assert(Self::deferral(s3.nodes@, n).len() == 0);
            }
        }
        Self::lemma_deferrals_rank(s3.nodes@, order, t);
        let d0 = s2.deferred@;
        let dp = Self::deferrals(s3.nodes@, order);
        assert forall|k: int| 0 <= k < s3.deferred@.len() implies s0.rank((#[trigger] s3.deferred@[k]).0 as int) > t by {
            let e = s3.deferred@[k];
            assert(Self::deref_pairs(s3.deferred@)[k] == (e.0, *e.1));
            if k < d0.len() {
                assert(Self::deref_pairs(d0)[k] == (d0[k].0, *d0[k].1));
                assert(d0[k] == s0.deferred@[k]);
            } else {
                assert(Self::deref_pairs(s3.deferred@).len() == s3.deferred@.len());
                assert(Self::deref_pairs(d0).len() == d0.len());
                assert((Self::deref_pairs(d0) + dp)[k] == dp[k - d0.len()]);
                assert(dp[k - d0.len()].0 == e.0);
                assert(e.0 < s3.len());
                assert(s3.nodes@[e.0 as int].rank == s0.nodes@[e.0 as int].rank);
            }
        }
    }

    /// `b` is `a` with the list of later firings emptied.
    pub open spec fn cleared(a: &Self, b: &Self) -> bool {
        &&& b.nodes@ == a.nodes@
        &&& b.to_be_updated@ == a.to_be_updated@
        &&& b.pre_trans@ == a.pre_trans@
        &&& b.events@ == a.events@
        &&& b.transaction_depth == a.transaction_depth
        &&& b.deferred@.len() == 0
    }

    /// `b` is `a` after node `n` fired `v` in a transaction of its own: the
    /// firing is staged, the queued work reports, the dirty nodes are updated
    /// and the cells take their new values.
    pub open spec fn fired(a: &Self, b: &Self, n: usize, v: V) -> bool {
        exists|s1: Self, s2: Self, s3: Self|
            #![trigger Self::staged(a, &s1, n, v), Self::pre_ran(&s1, &s2), Self::updates_ran(&s2, &s3)]
            Self::staged(a, &s1, n, v) && Self::pre_ran(&s1, &s2) && Self::updates_ran(&s2, &s3)
                && Self::commit_ran(&s3, b)
    }

    /// Each state of `trace` is the one before it after the next firing of
    /// `pending`.
    pub open spec fn fired_all(trace: Seq<Self>, pending: Seq<(usize, Rc<V>)>) -> bool {
        &&& trace.len() == pending.len() + 1
        &&& forall|k: int|
            0 <= k < pending.len() ==> Self::fired(&trace[k], &trace[k + 1], (#[trigger] pending[k]).0, *pending[k].1)
    }

    /// Fires, each in a transaction of its own, the values that were waiting
    /// to fire later when the call began; those that these transactions
    /// defer in turn wait for the next end of a transaction. The ghost result
    /// is the state before each firing and after the last.
    pub fn fire_deferred(&mut self, t: Ghost<int>) -> (trace: Ghost<Seq<Self>>)
        requires
            old(self).graph_wf(),
            old(self).quiet(),
            forall|k: int| 0 <= k < old(self).deferred@.len() ==> old(self).rank((#[trigger] old(self).deferred@[k]).0 as int) >= t@,
        ensures
            forall|k: int| 0 <= k < final(self).deferred@.len() ==> final(self).rank((#[trigger] final(self).deferred@[k]).0 as int) > t@,
            final(self).graph_wf(),
            final(self).quiet(),
            Self::same_graph(old(self), final(self)),
            forall|j: int|
                0 <= j < old(self).len() && old(self).nodes@[j].kind is Sink ==> (#[trigger] final(self).nodes@[j]).value
                    == old(self).nodes@[j].value,
            forall|m: int| old(self).map_ok(m) ==> #[trigger] final(self).map_ok(m),
            final(self).transaction_depth == old(self).transaction_depth,
            old(self).pre_trans@.len() == 0 ==> final(self).pre_trans@.len() == 0,
            Self::fired_all(trace@, old(self).deferred@),
            Self::cleared(old(self), &trace@[0]),
            trace@.last() == *final(self),
    {
        let ghost start = *self;
        let mut pending: Vec<(usize, Rc<V>)> = Vec::new();
        std::mem::swap(&mut pending, &mut self.deferred);
        let ghost mut trace: Seq<Self> = seq![*self];
        proof {
            Self::lemma_same_graph_wf(&start, self);
            assert(Self::same_graph(&start, self));
            assert(Self::cleared(&start, &trace[0]));
        }
        let mut k: usize = 0;
        while k < pending.len()
            invariant
                self.graph_wf(),
                self.quiet(),
                self.len() == start.len(),
                Self::same_graph(&start, self),
                forall|j: int|
                    0 <= j < start.len() && start.nodes@[j].kind is Sink ==> (#[trigger] self.nodes@[j]).value
                        == start.nodes@[j].value,
                forall|m: int| start.map_ok(m) ==> #[trigger] self.map_ok(m),
                self.transaction_depth == start.transaction_depth,
                start.pre_trans@.len() == 0 ==> self.pre_trans@.len() == 0,
                pending@ == start.deferred@,
                start.graph_wf(),
                k <= pending@.len(),
                Self::fired_all(trace, pending@.take(k as int)),
                Self::cleared(&start, &trace[0]),
                trace.last() == *self,
                forall|j: int| 0 <= j < self.deferred@.len() ==> start.rank((#[trigger] self.deferred@[j]).0 as int) > t@,
                forall|j: int| 0 <= j < pending@.len() ==> start.rank((#[trigger] pending@[j]).0 as int) >= t@,
            decreases pending@.len() - k,
        {
            let n = pending[k].0;
            let v = pending[k].1.clone();
            let ghost s0 = *self;
            proof {
                assert(start.deferred@[k as int].0 < start.len());
                assert(Self::defers(start.nodes@[n as int].kind));
                assert(self.nodes@[n as int].kind == start.nodes@[n as int].kind);
            }
            self.stage(n, v);
            let ghost s1 = *self;
            self.run_pre_trans();
            let len_now = self.nodes.len();
            let ghost s2 = *self;
            let order = self.run_updates();
            proof {
                Self::lemma_progress_same_graph(&s2, self, s2.to_be_updated@);
                assert(Self::same_graph(&s1, &s2));
                Self::lemma_same_graph_trans(&start, &s0, &s1);
                Self::lemma_same_graph_trans(&start, &s1, &s2);
                Self::lemma_same_graph_trans(&start, &s2, self);
                assert forall|j: int| 0 <= j < start.len() && start.nodes@[j].kind is Sink implies
                    (#[trigger] self.nodes@[j]).next is None by {
                    assert(Self::passive(s2.nodes@[j].kind));
                    assert(s2.nodes@[j].next == s1.nodes@[j].next);
                    assert(j != n as int);
                }
                assert(Self::pre_ran(&s1, &s2));
                assert(Self::reports(self.nodes@, order@) == Self::reports(self.nodes@, order@));
                assert(Self::updates_ran(&s2, self));
            }
            let ghost s3 = *self;
            self.commit();
            proof {
                Self::lemma_same_graph_trans(&start, &s3, self);
                Self::lemma_same_graph_trans(&s0, &s1, &s2);
                Self::lemma_progress_same_graph(&s2, &s3, s2.to_be_updated@);
                Self::lemma_same_graph_trans(&s0, &s2, &s3);
                assert(pending@[k as int].0 == n);
                assert(s0.rank(n as int) == start.rank(n as int));
                assert forall|j: int| 0 <= j < s0.deferred@.len() implies s0.rank((#[trigger] s0.deferred@[j]).0 as int) > t@ by {
                    assert(s0.deferred@[j].0 < s0.len());
                }
                assert forall|j: int| 0 <= j < s3.deferred@.len() implies s0.rank((#[trigger] s3.deferred@[j]).0 as int) > t@ by {
                    Self::lemma_round_step_ranks(&s0, &s1, &s2, &s3, n, *v, order@, t@);
                }
                assert forall|j: int| 0 <= j < self.deferred@.len() implies start.rank((#[trigger] self.deferred@[j]).0 as int) > t@ by {
                    assert(self.deferred@[j] == s3.deferred@[j]);
                    assert(s3.deferred@[j].0 < s3.len());
                }
                assert forall|m: int| start.map_ok(m) implies #[trigger] self.map_ok(m) by {
                    assert(s0.map_ok(m));
                    assert(s0.map_staged(m));
                    Self::lemma_map_staged_by_send(&s0, &s1, n, *v, m);
                    assert(s2.map_ok(m) && s2.map_staged(m));
                    Self::lemma_map_updated(&s2, &s3, self, m);
                }
                assert(Self::commit_ran(&s3, self));
                assert(Self::fired(&s0, self, n, *v));
                let t2 = trace.push(*self);
                let p2 = pending@.take(k + 1);
                assert forall|j: int| 0 <= j < p2.len() implies Self::fired(&t2[j], &t2[j + 1], (#[trigger] p2[j]).0, *p2[j].1) by {
                    if j < k {
                        assert(p2[j] == pending@.take(k as int)[j]);
                        assert(t2[j] == trace[j]);
                        assert(t2[j + 1] == trace[j + 1]);
                    } else {
                        assert(p2[j] == pending@[k as int]);
                        assert(t2[j] == s0);
                    }
                }
                trace = t2;
            }
            k = k + 1;
        }
        proof {
            assert(pending@.take(pending@.len() as int) =~= start.deferred@);
        }
        Ghost(trace)
    }

    /// `b` is `a` once the work queued before the propagation has reported to
    /// the listeners, in order.
    pub open spec fn pre_ran(a: &Self, b: &Self) -> bool {
        &&& b.nodes@ == a.nodes@
        &&& b.to_be_updated@ == a.to_be_updated@
        &&& b.deferred@ == a.deferred@
        &&& b.pre_trans@.len() == 0
        &&& b.events@ == a.events@ + a.pre_events(a.pre_trans@)
    }

    /// `b` is `a` once the dirty nodes have been updated in an order `order`
    /// of nondecreasing rank, each as often as it was queued: every node
    /// updated whose kind depends on its inputs alone has the new value that
    /// its inputs' final new values give, the listeners were told what
    /// `reports` says and the later firings are those that `deferrals` says.
    pub open spec fn updates_ran(a: &Self, b: &Self) -> bool {
        exists|order: Seq<usize>|
            #![trigger Self::reports(b.nodes@, order)]
            {
                &&& order.to_multiset() == a.to_be_updated@.to_multiset()
                &&& forall|x: int, y: int|
                    0 <= x < y < order.len() ==> b.rank(#[trigger] order[x] as int) <= b.rank(
                        #[trigger] order[y] as int,
                    )
                &&& b.events@ == a.events@ + Self::reports(b.nodes@, order)
                &&& Self::deref_pairs(b.deferred@) == Self::deref_pairs(a.deferred@) + Self::deferrals(
                    b.nodes@,
                    order,
                )
                &&& b.to_be_updated@.len() == 0
                &&& b.len() == a.len()
                &&& Self::progress(a, b, a.to_be_updated@)
                &&& b.pre_trans@ == a.pre_trans@
            }
    }

    /// `b` is `a` once each cell has taken its new value, if it had one, and
    /// no node has a new value any more.
    pub open spec fn commit_ran(a: &Self, b: &Self) -> bool {
        &&& Self::same_graph(a, b)
        &&& forall|j: int|
            0 <= j < a.len() ==> {
                &&& (#[trigger] b.nodes@[j]).value == Self::committed(a.nodes@[j])
                &&& b.nodes@[j].next is None
                &&& b.nodes@[j].kind == a.nodes@[j].kind
            }
        &&& b.to_be_updated@ == a.to_be_updated@
        &&& b.pre_trans@ == a.pre_trans@
        &&& b.deferred@ == a.deferred@
        &&& b.events@ == a.events@
    }

    /// `b` is `a` once the firings that were pending in `a` have run, each in
    /// a transaction of its own (`fired_all`): the graph is the same, nothing
    /// is dirty, no node has a new value and the sink cells keep their
    /// values. What those firings defer in turn is pending in `b`.
    pub open spec fn round_ran(a: &Self, b: &Self) -> bool {
        &&& a.graph_wf()
        &&& exists|trace: Seq<Self>|
            #[trigger] Self::fired_all(trace, a.deferred@) && Self::cleared(a, &trace[0]) && trace.last() == *b
        &&& b.graph_wf()
        &&& b.quiet()
        &&& Self::same_graph(a, b)
        &&& forall|j: int|
            0 <= j < a.len() && a.nodes@[j].kind is Sink ==> (#[trigger] b.nodes@[j]).value
                == a.nodes@[j].value
        &&& a.pre_trans@.len() == 0 ==> b.pre_trans@.len() == 0
    }

    /// Each state of `rounds` is the one before it once the firings pending
    /// there have run (`round_ran`).
    pub open spec fn rounds_ran(rounds: Seq<Self>) -> bool {
        forall|k: int| #![trigger rounds[k]] 0 <= k < rounds.len() - 1 ==> Self::round_ran(&rounds[k], &rounds[k + 1])
    }

    /// `b` is `a` once the firings left for later have run, round after
    /// round (`rounds_ran`), until none is pending: the graph is the same,
    /// nothing is dirty, no node has a new value and the sink cells keep
    /// their values.
    pub open spec fn deferred_ran(a: &Self, b: &Self) -> bool {
        &&& a.graph_wf()
        &&& exists|rounds: Seq<Self>|
            #[trigger] Self::rounds_ran(rounds) && rounds.len() >= 1 && rounds[0] == *a && rounds.last() == *b
        &&& b.deferred@.len() == 0
        &&& b.graph_wf()
        &&& b.quiet()
        &&& Self::same_graph(a, b)
        &&& forall|j: int|
            0 <= j < a.len() && a.nodes@[j].kind is Sink ==> (#[trigger] b.nodes@[j]).value
                == a.nodes@[j].value
        &&& a.pre_trans@.len() == 0 ==> b.pre_trans@.len() == 0
    }

    /// Runs what a transaction ends with: the queued work, the updates of the
    /// dirty nodes in rank order, the new values of the cells, and then the
    /// deferred firings, each in a transaction of its own.
    pub fn propagate(&mut self)
        requires
            old(self).graph_wf(),
        ensures
            final(self).graph_wf(),
            final(self).quiet(),
            final(self).pre_trans@.len() == 0,
            final(self).deferred@.len() == 0,
            Self::same_graph(old(self), final(self)),
            forall|j: int|
                0 <= j < old(self).len() && old(self).nodes@[j].kind is Sink ==> (#[trigger] final(self).nodes@[j]).value
                    == Self::committed(old(self).nodes@[j]),
            forall|m: int| old(self).map_ok(m) && old(self).map_staged(m) ==> #[trigger] final(self).map_ok(m),
            final(self).transaction_depth == old(self).transaction_depth,
            exists|s1: Self, s2: Self, s3: Self|
                #![trigger Self::pre_ran(old(self), &s1), Self::updates_ran(&s1, &s2), Self::commit_ran(&s2, &s3)]
                Self::pre_ran(old(self), &s1) && Self::updates_ran(&s1, &s2) && Self::commit_ran(&s2, &s3)
                    && Self::deferred_ran(&s3, final(self)),
    {
        let ghost s0 = *self;
        self.run_pre_trans();
        let len_now = self.nodes.len();
        let ghost s1 = *self;
        let order = self.run_updates();
        proof {
            assert(Self::pre_ran(&s0, &s1));
            assert(Self::reports(self.nodes@, order@) == Self::reports(self.nodes@, order@));
            assert(Self::updates_ran(&s1, self));
            Self::lemma_progress_same_graph(&s1, self, s1.to_be_updated@);
            assert(Self::same_graph(&s0, &s1));
            Self::lemma_same_graph_trans(&s0, &s1, self);
        }
        let ghost s2 = *self;
        self.commit();
        let ghost s3 = *self;
        proof {
            assert(Self::commit_ran(&s2, self));
            Self::lemma_same_graph_trans(&s0, &s2, self);
            assert forall|j: int| 0 <= j < s0.len() && s0.nodes@[j].kind is Sink implies
                (#[trigger] self.nodes@[j]).value == Self::committed(s0.nodes@[j]) by {
                assert(Self::passive(s1.nodes@[j].kind));
            }
        }
        proof {
            assert forall|m: int| s0.map_ok(m) && s0.map_staged(m) implies #[trigger] s3.map_ok(m) by {
                assert(s1.map_ok(m) && s1.map_staged(m));
                Self::lemma_map_updated(&s1, &s2, &s3, m);
            }
        }
        let ghost mut rounds: Seq<Self> = seq![*self];
        let ghost mut t: int = 0;
        proof {
            assert(Self::same_graph(&s3, self)) by {
                assert forall|j: int| 0 <= j < s3.len() implies {
                    &&& (#[trigger] self.nodes@[j]).rank == s3.nodes@[j].rank
                    &&& self.nodes@[j].dependencies@ == s3.nodes@[j].dependencies@
                    &&& self.nodes@[j].dependents@ == s3.nodes@[j].dependents@
                    &&& self.nodes@[j].alive == s3.nodes@[j].alive
                    &&& self.nodes@[j].value is Some <==> s3.nodes@[j].value is Some
                    &&& self.nodes@[j].kind == s3.nodes@[j].kind
                } by {}
            }
        }
        while self.deferred.len() > 0
            invariant
                self.graph_wf(),
                self.quiet(),
                s3.graph_wf(),
                self.len() == s3.len(),
                Self::same_graph(&s3, self),
                forall|j: int|
                    0 <= j < s3.len() && s3.nodes@[j].kind is Sink ==> (#[trigger] self.nodes@[j]).value
                        == s3.nodes@[j].value,
                forall|m: int| s3.map_ok(m) ==> #[trigger] self.map_ok(m),
                self.transaction_depth == s3.transaction_depth,
                s3.pre_trans@.len() == 0,
                self.pre_trans@.len() == 0,
                0 <= t <= s3.len(),
                forall|k: int| 0 <= k < self.deferred@.len() ==> self.rank((#[trigger] self.deferred@[k]).0 as int) >= t,
                Self::rounds_ran(rounds),
                rounds.len() >= 1,
                rounds[0] == s3,
                rounds.last() == *self,
            decreases s3.len() - t,
        {
            proof {
                let e = self.deferred@[0].0;
                assert(self.node_wf(e as int));
                assert(t < s3.len());
            }
            let ghost r0 = *self;
            let trace = self.fire_deferred(Ghost(t));
            proof {
                assert(Self::round_ran(&r0, self));
                let r2 = rounds.push(*self);
                assert forall|k: int| #![trigger r2[k]] 0 <= k < r2.len() - 1 implies Self::round_ran(&r2[k], &r2[k + 1]) by {
                    if k < rounds.len() - 1 {
                        assert(r2[k] == rounds[k]);
                        assert(r2[k + 1] == rounds[k + 1]);
                    } else {
                        assert(r2[k] == r0);
                    }
                }
                rounds = r2;
                t = t + 1;
                Self::lemma_same_graph_trans(&s3, &r0, self);
            }
        }
        proof {
            Self::lemma_same_graph_trans(&s0, &s3, self);
            assert forall|j: int| 0 <= j < s0.len() && s0.nodes@[j].kind is Sink implies
                (#[trigger] self.nodes@[j]).value == Self::committed(s0.nodes@[j]) by {
                assert(s3.nodes@[j].kind == s2.nodes@[j].kind);
                assert(s2.nodes@[j].kind == s0.nodes@[j].kind);
            }
            assert(Self::deferred_ran(&s3, self));
        }
    }

    /// `b` is what the end of the outermost transaction leaves of `a`: the
    /// queued work is reported (`pre_ran`), the dirty nodes are updated in
    /// rank order (`updates_ran`), each cell takes its new value
    /// (`commit_ran`) and the deferred firings run (`deferred_ran`). Nothing
    /// is dirty and no node has a new value any more, the graph is the same,
    /// each sink cell holds the value sent to it last, if any, and each map
    /// cell that was due to follow its source holds its function of the
    /// source's value.
    pub open spec fn propagated(a: &Self, b: &Self) -> bool {
        &&& b.graph_wf()
        &&& b.quiet()
        &&& b.pre_trans@.len() == 0
        &&& b.deferred@.len() == 0
        &&& Self::same_graph(a, b)
        &&& forall|j: int|
            0 <= j < a.len() && a.nodes@[j].kind is Sink ==> (#[trigger] b.nodes@[j]).value
                == Self::committed(a.nodes@[j])
        &&& forall|m: int| a.map_ok(m) && a.map_staged(m) ==> #[trigger] b.map_ok(m)
        &&& exists|s1: Self, s2: Self, s3: Self|
            #![trigger Self::pre_ran(a, &s1), Self::updates_ran(&s1, &s2), Self::commit_ran(&s2, &s3)]
            Self::pre_ran(a, &s1) && Self::updates_ran(&s1, &s2) && Self::commit_ran(&s2, &s3)
                && Self::deferred_ran(&s3, b)
    }

    /// Rounds that start with no firing pending change no node.
    pub proof fn lemma_rounds_idle(rounds: Seq<Self>, k: int)
        requires
            Self::rounds_ran(rounds),
            0 <= k < rounds.len(),
            rounds[0].deferred@.len() == 0,
        ensures
            rounds[k].nodes@ == rounds[0].nodes@,
            rounds[k].deferred@.len() == 0,
        decreases k,
    {
        if k > 0 {
            Self::lemma_rounds_idle(rounds, k - 1);
            let a = rounds[k - 1];
            let b = rounds[k];
            assert(Self::round_ran(&a, &b));
            let trace = choose|trace: Seq<Self>|
                #[trigger] Self::fired_all(trace, a.deferred@) && Self::cleared(&a, &trace[0]) && trace.last() == b;
            assert(trace.len() == 1);
            assert(trace[0] == b);
        }
    }

    /// Updates with no new value at their start give none: every node of
    /// rank below `r` ends without a new value.
    pub proof fn lemma_no_news_below(s1: &Self, s2: &Self, r: nat)
        requires
            s1.graph_wf(),
            s1.len() <= usize::MAX,
            s2.len() == s1.len(),
            forall|i: int| 0 <= i < s1.len() ==> (#[trigger] s1.nodes@[i]).next is None,
            Self::progress(s1, s2, s1.to_be_updated@),
        ensures
            forall|j: int| 0 <= j < s1.len() && s1.rank(j) < r ==> (#[trigger] s2.nodes@[j]).next is None,
        decreases r,
    {
        if r > 0 {
            Self::lemma_no_news_below(s1, s2, (r - 1) as nat);
            assert forall|j: int| 0 <= j < s1.len() && s1.rank(j) < r implies (#[trigger] s2.nodes@[j]).next is None by {
                if s1.rank(j) == r - 1 {
                    reveal(SodiumCtxData::progress_in);
                    reveal(SodiumCtxData::computed_in);
                    let ju = j as usize;
                    assert(ju as int == j);
                    assert(s1.node_wf(j));
                    let nd = s2.nodes@[j];
                    assert(nd.dependencies@ == s1.nodes@[j].dependencies@);
                    assert(nd.kind == s1.nodes@[j].kind);
                    if nd.dependencies@.len() > 0 {
                        let src = nd.dependencies@[0] as int;
                        assert(s1.rank(src) < s1.rank(j));
                        assert(s2.nodes@[src].next is None);
                    }
                    if s1.to_be_updated@.contains(ju) && Self::is_pure(nd.kind) {
                        assert(opt_val(nd.next) == Self::computed_in(s2.nodes@, j));
                    }
                }
            }
        }
    }

    /// Updates with no new value at their start leave nothing to fire later.
    pub proof fn lemma_no_deferrals(nodes: Seq<NodeData<V, F>>, order: Seq<usize>)
        requires
            forall|k: int| 0 <= k < order.len() ==> {
                let x = #[trigger] order[k] as int;
                &&& 0 <= x < nodes.len()
                &&& nodes[x].dependencies@.len() == 1 || !Self::defers(nodes[x].kind)
                &&& nodes[x].dependencies@.len() == 1 ==> nodes[nodes[x].dependencies@[0] as int].next is None
            },
        ensures
            Self::deferrals(nodes, order).len() == 0,
        decreases order.len(),
    {
        if order.len() > 0 {
            let o = order.drop_last();
            assert forall|k: int| 0 <= k < o.len() implies {
                let x = #[trigger] o[k] as int;
                &&& 0 <= x < nodes.len()
                &&& nodes[x].dependencies@.len() == 1 || !Self::defers(nodes[x].kind)
                &&& nodes[x].dependencies@.len() == 1 ==> nodes[nodes[x].dependencies@[0] as int].next is None
            } by {
                assert(o[k] == order[k]);
            }
            Self::lemma_no_deferrals(nodes, o);
            assert(order.last() == order[order.len() - 1]);
        }
    }

    /// A propagation from a state where no node has a new value and no
    /// firing is left for later changes the value of no cell (nodes queued
    /// meanwhile are updated, but from inputs that bring nothing new).
    pub proof fn lemma_idle_propagation(a: &Self, b: &Self)
        requires
            Self::propagated(a, b),
            a.graph_wf(),
            a.at_rest(),
            a.len() <= usize::MAX,
        ensures
            forall|j: int| 0 <= j < a.len() ==> (#[trigger] b.nodes@[j]).value == a.nodes@[j].value,
    {
        let (s1, s2, s3) = choose|s1: Self, s2: Self, s3: Self|
            #![trigger Self::pre_ran(a, &s1), Self::updates_ran(&s1, &s2), Self::commit_ran(&s2, &s3)]
            Self::pre_ran(a, &s1) && Self::updates_ran(&s1, &s2) && Self::commit_ran(&s2, &s3)
                && Self::deferred_ran(&s3, b);
        let order = choose|order: Seq<usize>|
            #![trigger Self::reports(s2.nodes@, order)]
            {
                &&& order.to_multiset() == s1.to_be_updated@.to_multiset()
                &&& forall|x: int, y: int|
                    0 <= x < y < order.len() ==> s2.rank(#[trigger] order[x] as int) <= s2.rank(
                        #[trigger] order[y] as int,
                    )
                &&& s2.events@ == s1.events@ + Self::reports(s2.nodes@, order)
                &&& Self::deref_pairs(s2.deferred@) == Self::deref_pairs(s1.deferred@) + Self::deferrals(
                    s2.nodes@,
                    order,
                )
                &&& s2.to_be_updated@.len() == 0
                &&& s2.len() == s1.len()
                &&& Self::progress(&s1, &s2, s1.to_be_updated@)
                &&& s2.pre_trans@ == s1.pre_trans@
            };
        assert(s1.graph_wf()) by {
            Self::lemma_same_graph_wf(a, &s1);
        }
        Self::lemma_no_news_below(&s1, &s2, a.len() as nat);
        assert forall|j: int| 0 <= j < a.len() implies (#[trigger] s2.nodes@[j]).next is None by {
            assert(s1.node_wf(j));
        }
        Self::lemma_progress_same_graph(&s1, &s2, s1.to_be_updated@);
        assert forall|k: int| 0 <= k < order.len() implies {
            let x = #[trigger] order[k] as int;
            &&& 0 <= x < s2.nodes@.len()
            &&& s2.nodes@[x].dependencies@.len() == 1 || !Self::defers(s2.nodes@[x].kind)
            &&& s2.nodes@[x].dependencies@.len() == 1 ==> s2.nodes@[s2.nodes@[x].dependencies@[0] as int].next is None
        } by {
            let x = order[k];
            assert(order.contains(x));
            assert(order.to_multiset().count(x) > 0);
            assert(s1.to_be_updated@.to_multiset().count(x) > 0);
            assert(s1.to_be_updated@.contains(x));
            let w = choose|w: int| 0 <= w < s1.to_be_updated@.len() && s1.to_be_updated@[w] == x;
            assert(x < s1.len());
            assert(s1.node_wf(x as int));
            if s2.nodes@[x as int].dependencies@.len() == 1 {
                assert(s1.nodes@[x as int].dependencies@[0] < x);
            }
        }
        Self::lemma_no_deferrals(s2.nodes@, order);
        assert(Self::deref_pairs(s2.deferred@).len() == 0);
        assert(s3.deferred@.len() == 0);
        assert forall|j: int| 0 <= j < a.len() implies (#[trigger] s3.nodes@[j]).value == a.nodes@[j].value by {
            assert(s2.nodes@[j].value == s1.nodes@[j].value);
        }
        let rounds = choose|rounds: Seq<Self>|
            #[trigger] Self::rounds_ran(rounds) && rounds.len() >= 1 && rounds[0] == s3 && rounds.last() == *b;
        Self::lemma_rounds_idle(rounds, rounds.len() - 1);
        assert(rounds[rounds.len() - 1] == *b);
        assert forall|j: int| 0 <= j < a.len() implies (#[trigger] b.nodes@[j]).value == a.nodes@[j].value by {
            assert(b.nodes@[j] == s3.nodes@[j]);
        }
    }

    /// `q` begins with `p`.
    pub open spec fn begins_with(p: Seq<(usize, Rc<V>)>, q: Seq<(usize, Rc<V>)>) -> bool {
        &&& p.len() <= q.len()
        &&& forall|j: int| 0 <= j < p.len() ==> #[trigger] q[j] == p[j]
    }

    pub proof fn lemma_begins_trans(p: Seq<(usize, Rc<V>)>, q: Seq<(usize, Rc<V>)>, r: Seq<(usize, Rc<V>)>)
        requires
            Self::begins_with(p, q),
            Self::begins_with(q, r),
        ensures
            Self::begins_with(p, r),
    {
        assert forall|j: int| 0 <= j < p.len() implies #[trigger] r[j] == p[j] by {
            assert(r[j] == q[j]);
        }
    }

    /// A deferred firing only adds events after those told already.
    pub proof fn lemma_fired_keeps_events(a: &Self, b: &Self, n: usize, v: Rc<V>)
        requires
            Self::fired(a, b, n, *v),
        ensures
            Self::begins_with(a.events@, b.events@),
    {
        let (s1, s2, s3) = choose|s1: Self, s2: Self, s3: Self|
            #![trigger Self::staged(a, &s1, n, *v), Self::pre_ran(&s1, &s2), Self::updates_ran(&s2, &s3)]
            Self::staged(a, &s1, n, *v) && Self::pre_ran(&s1, &s2) && Self::updates_ran(&s2, &s3)
                && Self::commit_ran(&s3, b);
        let order = choose|order: Seq<usize>|
            #![trigger Self::reports(s3.nodes@, order)]
            {
                &&& order.to_multiset() == s2.to_be_updated@.to_multiset()
                &&& forall|x: int, y: int|
                    0 <= x < y < order.len() ==> s3.rank(#[trigger] order[x] as int) <= s3.rank(
                        #[trigger] order[y] as int,
                    )
                &&& s3.events@ == s2.events@ + Self::reports(s3.nodes@, order)
                &&& Self::deref_pairs(s3.deferred@) == Self::deref_pairs(s2.deferred@) + Self::deferrals(
                    s3.nodes@,
                    order,
                )
                &&& s3.to_be_updated@.len() == 0
                &&& s3.len() == s2.len()
                &&& Self::progress(&s2, &s3, s2.to_be_updated@)
                &&& s3.pre_trans@ == s2.pre_trans@
            };
        assert(Self::begins_with(a.events@, s2.events@));
        assert(Self::begins_with(s2.events@, s3.events@));
        Self::lemma_begins_trans(a.events@, s2.events@, s3.events@);
    }

    pub proof fn lemma_trace_keeps_events(trace: Seq<Self>, pending: Seq<(usize, Rc<V>)>, k: int)
        requires
            Self::fired_all(trace, pending),
            0 <= k < trace.len(),
        ensures
            Self::begins_with(trace[0].events@, trace[k].events@),
        decreases k,
    {
        if k > 0 {
            Self::lemma_trace_keeps_events(trace, pending, k - 1);
            let n = pending[k - 1].0;
            let v = pending[k - 1].1;
            assert(Self::fired(&trace[k - 1], &trace[k], n, *v));
            Self::lemma_fired_keeps_events(&trace[k - 1], &trace[k], n, v);
            Self::lemma_begins_trans(trace[0].events@, trace[k - 1].events@, trace[k].events@);
        }
    }

    pub proof fn lemma_rounds_keep_events(rounds: Seq<Self>, k: int)
        requires
            Self::rounds_ran(rounds),
            0 <= k < rounds.len(),
        ensures
            Self::begins_with(rounds[0].events@, rounds[k].events@),
        decreases k,
    {
        if k > 0 {
            Self::lemma_rounds_keep_events(rounds, k - 1);
            let a = rounds[k - 1];
            let b = rounds[k];
            assert(Self::round_ran(&a, &b));
            let trace = choose|trace: Seq<Self>|
                #[trigger] Self::fired_all(trace, a.deferred@) && Self::cleared(&a, &trace[0]) && trace.last() == b;
            Self::lemma_trace_keeps_events(trace, a.deferred@, trace.len() - 1);
            assert(trace[trace.len() - 1] == b);
            Self::lemma_begins_trans(rounds[0].events@, a.events@, b.events@);
        }
    }

    /// A propagation tells the listeners first what the queued work asks
    /// for, in order, and only then what the updates report.
    pub proof fn lemma_propagated_begins_with_pre(a: &Self, b: &Self)
        requires
            Self::propagated(a, b),
        ensures
            Self::begins_with(a.events@ + a.pre_events(a.pre_trans@), b.events@),
    {
        let (s1, s2, s3) = choose|s1: Self, s2: Self, s3: Self|
            #![trigger Self::pre_ran(a, &s1), Self::updates_ran(&s1, &s2), Self::commit_ran(&s2, &s3)]
            Self::pre_ran(a, &s1) && Self::updates_ran(&s1, &s2) && Self::commit_ran(&s2, &s3)
                && Self::deferred_ran(&s3, b);
        let order = choose|order: Seq<usize>|
            #![trigger Self::reports(s2.nodes@, order)]
            {
                &&& order.to_multiset() == s1.to_be_updated@.to_multiset()
                &&& forall|x: int, y: int|
                    0 <= x < y < order.len() ==> s2.rank(#[trigger] order[x] as int) <= s2.rank(
                        #[trigger] order[y] as int,
                    )
                &&& s2.events@ == s1.events@ + Self::reports(s2.nodes@, order)
                &&& Self::deref_pairs(s2.deferred@) == Self::deref_pairs(s1.deferred@) + Self::deferrals(
                    s2.nodes@,
                    order,
                )
                &&& s2.to_be_updated@.len() == 0
                &&& s2.len() == s1.len()
                &&& Self::progress(&s1, &s2, s1.to_be_updated@)
                &&& s2.pre_trans@ == s1.pre_trans@
            };
        assert(Self::begins_with(s1.events@, s2.events@));
        let rounds = choose|rounds: Seq<Self>|
            #[trigger] Self::rounds_ran(rounds) && rounds.len() >= 1 && rounds[0] == s3 && rounds.last() == *b;
        Self::lemma_rounds_keep_events(rounds, rounds.len() - 1);
        assert(rounds[rounds.len() - 1] == *b);
        Self::lemma_begins_trans(s1.events@, s3.events@, b.events@);
        assert(s1.events@ == a.events@ + a.pre_events(a.pre_trans@));
        assert(Self::begins_with(s1.events@, s1.events@));
    }

    /// A propagation does not depend on the transaction depth it starts at.
    pub proof fn lemma_propagated_depth(a: &Self, a2: &Self, b: &Self)
        requires
            Self::propagated(a, b),
            Self::only_depth(a, a2, a2.transaction_depth as int),
        ensures
            Self::propagated(a2, b),
    {
        let (s1, s2, s3) = choose|s1: Self, s2: Self, s3: Self|
            #![trigger Self::pre_ran(a, &s1), Self::updates_ran(&s1, &s2), Self::commit_ran(&s2, &s3)]
            Self::pre_ran(a, &s1) && Self::updates_ran(&s1, &s2) && Self::commit_ran(&s2, &s3)
                && Self::deferred_ran(&s3, b);
        assert(a.pre_events(a.pre_trans@) =~= a2.pre_events(a2.pre_trans@));
        assert(Self::pre_ran(a2, &s1));
        assert(Self::same_graph(a2, b)) by {
            assert forall|j: int| 0 <= j < a2.len() implies {
                &&& (#[trigger] b.nodes@[j]).rank == a2.nodes@[j].rank
                &&& b.nodes@[j].dependencies@ == a2.nodes@[j].dependencies@
                &&& b.nodes@[j].dependents@ == a2.nodes@[j].dependents@
                &&& b.nodes@[j].alive == a2.nodes@[j].alive
                &&& b.nodes@[j].value is Some <==> a2.nodes@[j].value is Some
                &&& b.nodes@[j].kind == a2.nodes@[j].kind
            } by {
                assert(a2.nodes@[j] == a.nodes@[j]);
            }
        }
        assert forall|j: int|
            0 <= j < a2.len() && a2.nodes@[j].kind is Sink implies (#[trigger] b.nodes@[j]).value
                == Self::committed(a2.nodes@[j]) by {
            assert(a2.nodes@[j] == a.nodes@[j]);
        }
    }

    /// `b` is `a` with the transaction depth changed to `depth`.
    pub open spec fn only_depth(a: &Self, b: &Self, depth: int) -> bool {
        &&& b.nodes@ == a.nodes@
        &&& b.to_be_updated@ == a.to_be_updated@
        &&& b.pre_trans@ == a.pre_trans@
        &&& b.deferred@ == a.deferred@
        &&& b.events@ == a.events@
        &&& b.transaction_depth == depth
    }

    /// `b` is what closing a transaction leaves of `a`: an inner one only
    /// lowers the depth; the outermost one propagates.
    pub open spec fn ended(a: &Self, b: &Self) -> bool {
        &&& a.transaction_depth > 1 ==> Self::only_depth(a, b, a.transaction_depth - 1)
        &&& a.transaction_depth == 1 ==> Self::propagated(a, b) && b.transaction_depth == 0
    }

    /// `b` is what a transaction opened and closed on `a` with no change in
    /// between leaves: nothing inside another transaction, a propagation
    /// outside of any.
    pub open spec fn settled(a: &Self, b: &Self) -> bool {
        &&& a.transaction_depth > 0 ==> Self::only_depth(a, b, a.transaction_depth as int)
        &&& a.transaction_depth == 0 ==> Self::propagated(a, b) && b.transaction_depth == 0
    }

    /// `b` is `a0` with the send of `a` to the sink `id` staged: the sink has
    /// the new value `a` and the nodes that it reaches are marked dirty, once
    /// each; nothing else changes.
    pub open spec fn staged(a0: &Self, b: &Self, id: usize, a: V) -> bool {
        &&& b.len() == a0.len()
        &&& b.nx(id as int) == Some(a)
        &&& forall|j: int| 0 <= j < a0.len() && j != id ==> #[trigger] b.nodes@[j] == a0.nodes@[j]
        &&& b.nodes@[id as int].rank == a0.nodes@[id as int].rank
        &&& b.nodes@[id as int].kind == a0.nodes@[id as int].kind
        &&& b.nodes@[id as int].dependencies@ == a0.nodes@[id as int].dependencies@
        &&& b.nodes@[id as int].dependents@ == a0.nodes@[id as int].dependents@
        &&& b.nodes@[id as int].alive == a0.nodes@[id as int].alive
        &&& b.nodes@[id as int].value == a0.nodes@[id as int].value
        &&& a0.to_be_updated@.len() <= b.to_be_updated@.len()
        &&& b.to_be_updated@.subrange(0, a0.to_be_updated@.len() as int) == a0.to_be_updated@
        &&& b.to_be_updated@.subrange(a0.to_be_updated@.len() as int, b.to_be_updated@.len() as int).no_duplicates()
        &&& forall|m: usize|
            #[trigger] b.to_be_updated@.subrange(
                a0.to_be_updated@.len() as int,
                b.to_be_updated@.len() as int,
            ).contains(m) <==> (m < a0.len() && a0.reaches(id, m))
        &&& b.pre_trans@ == a0.pre_trans@
        &&& b.events@ == a0.events@
        &&& b.deferred@ == a0.deferred@
        &&& b.transaction_depth == a0.transaction_depth
    }

    /// `b` is what sending `a` to the sink `id` leaves of `a0`. Inside a
    /// transaction the send is staged, and no cell changes. Outside one it is
    /// a transaction of its own: the send is staged, then propagated, and
    /// afterwards nothing is dirty, a sink cell holds `a`, and the other sinks
    /// keep their values.
    pub open spec fn sent(a0: &Self, b: &Self, id: usize, a: V) -> bool {
        &&& b.wf()
        &&& b.transaction_depth == a0.transaction_depth
        &&& Self::same_graph(a0, b)
        &&& a0.transaction_depth > 0 ==> Self::staged(a0, b, id, a)
        &&& a0.transaction_depth == 0 ==> {
            &&& exists|s: Self| #[trigger] Self::staged(a0, &s, id, a) && Self::propagated(&s, b)
            &&& b.quiet()
            &&& b.pre_trans@.len() == 0
            &&& a0.is_cell(id as int) ==> b.val(id as int) == a
            &&& forall|j: int|
                0 <= j < a0.len() && j != id && a0.nodes@[j].kind is Sink ==> (#[trigger] b.nodes@[j]).value
                    == a0.nodes@[j].value
        }
    }

    /// Gives node `id` the new value `a` and marks dirty, once each, the
    /// nodes that it reaches.
    pub(crate) fn stage(&mut self, id: usize, a: Rc<V>)
        requires
            old(self).graph_wf(),
            id < old(self).len(),
        ensures
            final(self).graph_wf(),
            Self::staged(old(self), final(self), id, *a),
            Self::same_graph(old(self), final(self)),
    {
        let ghost s0 = *self;
        self.nodes[id].next = Some(a);
        proof {
            Self::lemma_same_graph_wf(&s0, self);
            assert(Self::same_graph(&s0, self));
            assert forall|p: Seq<usize>| s0.is_path(p) <==> self.is_path(p) by {
                assert forall|k: int| 0 <= k < self.len() implies self.dependents(k) == s0.dependents(k) by {}
            }
            assert forall|m: usize| s0.reaches(id, m) <==> self.reaches(id, m) by {
                if s0.reaches(id, m) {
                    let p = choose|p: Seq<usize>| #[trigger] s0.is_path(p) && p[0] == id && p.last() == m;
                    assert(self.is_path(p));
                }
                if self.reaches(id, m) {
                    let p = choose|p: Seq<usize>| #[trigger] self.is_path(p) && p[0] == id && p.last() == m;
                    assert(s0.is_path(p));
                }
            }
        }
        let ghost s1 = *self;
        let marked = self.mark_dirty(id);
        proof {
            assert(self.to_be_updated@.subrange(0, s0.to_be_updated@.len() as int) =~= s0.to_be_updated@);
            assert(self.to_be_updated@.subrange(s0.to_be_updated@.len() as int, self.to_be_updated@.len() as int)
                =~= marked@);
            assert(Self::same_graph(&s1, self));
            Self::lemma_same_graph_trans(&s0, &s1, self);
            assert(Self::staged(&s0, self, id, *a));
        }
    }

    /// Gives the sink `id` the new value `a` and marks dirty what it reaches;
    /// outside a transaction this is a transaction of its own, which then
    /// ends.
    pub fn send_to(&mut self, id: usize, a: V)
        requires
            old(self).wf(),
            id < old(self).len(),
            old(self).nodes@[id as int].kind is Sink,
        ensures
            Self::sent(old(self), final(self), id, a),
    {
        let ghost s0 = *self;
        self.stage(id, Rc::new(a));
        if self.transaction_depth == 0 {
            let ghost s2 = *self;
            self.propagate();
            proof {
                assert(Self::staged(&s0, &s2, id, a) && Self::propagated(&s2, self));
                Self::lemma_same_graph_trans(&s0, &s2, self);
                assert(s2.nx(id as int) == Some(a));
                assert(Self::committed(s2.nodes@[id as int]) == (if s0.is_cell(id as int) {
                    s2.nodes@[id as int].next
                } else {
                    s2.nodes@[id as int].value
                }));
            }
        }
    }

    /// `b` is `a0` with the nodes that `id` reaches marked dirty, once each,
    /// and nothing else changed: node `id` gets no new value.
    pub open spec fn marked(a0: &Self, b: &Self, id: usize) -> bool {
        &&& b.nodes@ == a0.nodes@
        &&& a0.to_be_updated@.len() <= b.to_be_updated@.len()
        &&& b.to_be_updated@.subrange(0, a0.to_be_updated@.len() as int) == a0.to_be_updated@
        &&& b.to_be_updated@.subrange(a0.to_be_updated@.len() as int, b.to_be_updated@.len() as int).no_duplicates()
        &&& forall|m: usize|
            #[trigger] b.to_be_updated@.subrange(
                a0.to_be_updated@.len() as int,
                b.to_be_updated@.len() as int,
            ).contains(m) <==> (m < a0.len() && a0.reaches(id, m))
        &&& b.pre_trans@ == a0.pre_trans@
        &&& b.events@ == a0.events@
        &&& b.deferred@ == a0.deferred@
        &&& b.transaction_depth == a0.transaction_depth
    }

    /// `b` is what a send to the sink stream `id` leaves of `a0`: what the
    /// sink reaches is marked dirty but the sink holds no value, so it fires
    /// nothing. Inside a transaction that is all; outside one it is a
    /// transaction of its own, which then propagates.
    pub open spec fn pinged(a0: &Self, b: &Self, id: usize) -> bool {
        &&& b.wf()
        &&& b.transaction_depth == a0.transaction_depth
        &&& Self::same_graph(a0, b)
        &&& a0.transaction_depth > 0 ==> Self::marked(a0, b, id)
        &&& a0.transaction_depth == 0 ==> {
            &&& exists|s: Self| #[trigger] Self::marked(a0, &s, id) && Self::propagated(&s, b)
            &&& b.quiet()
            &&& b.pre_trans@.len() == 0
        }
    }

    /// Marks dirty what the sink `id` reaches without giving it a value;
    /// outside a transaction this is a transaction of its own, which then
    /// ends.
    pub fn ping(&mut self, id: usize)
        requires
            old(self).wf(),
            id < old(self).len(),
        ensures
            Self::pinged(old(self), final(self), id),
    {
        let ghost s0 = *self;
        let marked = self.mark_dirty(id);
        proof {
            assert(self.to_be_updated@.subrange(0, s0.to_be_updated@.len() as int) =~= s0.to_be_updated@);
            assert(self.to_be_updated@.subrange(s0.to_be_updated@.len() as int, self.to_be_updated@.len() as int)
                =~= marked@);
            assert(Self::marked(&s0, self, id));
            assert(Self::same_graph(&s0, self));
        }
        if self.transaction_depth == 0 {
            let ghost s2 = *self;
            self.propagate();
            proof {
                assert(Self::marked(&s0, &s2, id) && Self::propagated(&s2, self));
                Self::lemma_same_graph_trans(&s0, &s2, self);
            }
        }
    }
}

} // verus!
