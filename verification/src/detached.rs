use vstd::prelude::*;
use std::rc::Rc;

use crate::lambda::IsLambda;
use crate::node::NodeData;
use crate::sodium_ctx::{PreTrans, SodiumCtxData};

verus! {

broadcast use vstd::seq_lib::group_to_multiset_ensures;

impl<V, F> SodiumCtxData<V, F> {
    /// No dependents list holds node `l`: no change of another node reaches it.
    pub open spec fn detached(&self, l: usize) -> bool {
        forall|j: int| 0 <= j < self.len() ==> !(#[trigger] self.dependents(j)).contains(l)
    }

    /// No work queued before the next propagation reports to listener `l`.
    pub open spec fn nothing_queued_for(&self, l: usize) -> bool {
        forall|k: int|
            0 <= k < self.pre_trans@.len() ==> match #[trigger] self.pre_trans@[k] {
                PreTrans::Sample { listener, .. } => listener != l,
                PreTrans::Emit { listener, .. } => listener != l,
            }
    }

    /// `b` is `a` followed by events of which none is for listener `l`.
    pub open spec fn extended_without(a: Seq<(usize, Rc<V>)>, b: Seq<(usize, Rc<V>)>, l: usize) -> bool {
        &&& a.len() <= b.len()
        &&& b.subrange(0, a.len() as int) == a
        &&& forall|k: int| a.len() <= k < b.len() ==> (#[trigger] b[k]).0 != l
    }
}

impl<V, F: IsLambda<V>> SodiumCtxData<V, F> {

    pub proof fn lemma_extended_trans(a: Seq<(usize, Rc<V>)>, b: Seq<(usize, Rc<V>)>, c: Seq<(usize, Rc<V>)>, l: usize)
        requires
            Self::extended_without(a, b, l),
            Self::extended_without(b, c, l),
        ensures
            Self::extended_without(a, c, l),
    {
        assert(c.subrange(0, a.len() as int) =~= c.subrange(0, b.len() as int).subrange(0, a.len() as int));
        assert forall|k: int| a.len() <= k < c.len() implies (#[trigger] c[k]).0 != l by {
            if k < b.len() {
                assert(c.subrange(0, b.len() as int)[k] == c[k]);
                assert(b[k].0 != l);
            }
        }
    }

    /// Appending events of which none is for `l` extends without `l`.
    pub proof fn lemma_extended_append(a: Seq<(usize, Rc<V>)>, x: Seq<(usize, Rc<V>)>, l: usize)
        requires
            forall|k: int| 0 <= k < x.len() ==> (#[trigger] x[k]).0 != l,
        ensures
            Self::extended_without(a, a + x, l),
    {
        assert((a + x).subrange(0, a.len() as int) =~= a);
        assert forall|k: int| a.len() <= k < (a + x).len() implies (#[trigger] (a + x)[k]).0 != l by {
            assert((a + x)[k] == x[k - a.len()]);
        }
    }

    /// The updates of the nodes of `order` report only to those nodes.
    pub proof fn lemma_reports_without(nodes: Seq<NodeData<V, F>>, order: Seq<usize>, l: usize)
        requires
            !order.contains(l),
        ensures
            forall|k: int| 0 <= k < Self::reports(nodes, order).len() ==> (#[trigger] Self::reports(nodes, order)[k]).0 != l,
        decreases order.len(),
    {
        if order.len() > 0 {
            let o = order.drop_last();
            assert(!o.contains(l)) by {
                if o.contains(l) {
                    let w = choose|w: int| 0 <= w < o.len() && o[w] == l;
                    assert(order[w] == l);
                }
            }
            Self::lemma_reports_without(nodes, o, l);
            let x = order.last();
            assert(order[order.len() - 1] == x);
            assert(x != l);
            let r = Self::reports(nodes, order);
            let r0 = Self::reports(nodes, o);
            let rx = Self::report(nodes, x);
            assert(r == r0 + rx);
            assert forall|k: int| 0 <= k < r.len() implies (#[trigger] r[k]).0 != l by {
                if k < r0.len() {
                    assert(r[k] == r0[k]);
                } else {
                    assert(r[k] == rx[k - r0.len()]);
                    assert(rx[k - r0.len()].0 == x);
                }
            }
        }
    }

    /// The queued work reports to no listener that nothing was queued for.
    pub proof fn lemma_pre_events_without(&self, l: usize)
        requires
            self.nothing_queued_for(l),
        ensures
            forall|k: int|
                0 <= k < self.pre_events(self.pre_trans@).len() ==> (#[trigger] self.pre_events(self.pre_trans@)[k]).0
                    != l,
    {
        assert forall|k: int| 0 <= k < self.pre_events(self.pre_trans@).len() implies (#[trigger] self.pre_events(
            self.pre_trans@,
        )[k]).0 != l by {
            let p = self.pre_trans@[k];
            assert(self.pre_events(self.pre_trans@)[k] == self.pre_event(p));
        }
    }

    /// The updates of a propagation report to no node that was not queued.
    pub proof fn lemma_updates_without(a: &Self, b: &Self, l: usize)
        requires
            Self::updates_ran(a, b),
            !a.to_be_updated@.contains(l),
        ensures
            Self::extended_without(a.events@, b.events@, l),
    {
        let order = choose|order: Seq<usize>|
            #![trigger Self::reports(b.nodes@, order)]
            {
                &&& order.to_multiset() == a.to_be_updated@.to_multiset()
                &&& forall|x: int, y: int|
                    0 <= x < y < order.len() ==> b.rank(#[trigger] order[x] as int) <= b.rank(
                        #[trigger] order[y] as int,
                    )
                &&& b.events@ == a.events@ + Self::reports(b.nodes@, order)
                &&& Self::deref_pairs(b.deferred@) == Self::deref_pairs(a.deferred@) + Self::deferrals(
                    b.nodes@,
                    order,
                )
                &&& b.to_be_updated@.len() == 0
                &&& b.len() == a.len()
                &&& Self::progress(a, b, a.to_be_updated@)
                &&& b.pre_trans@ == a.pre_trans@
            };
        assert(!order.contains(l)) by {
            if order.contains(l) {
                assert(order.to_multiset().count(l) > 0);
                assert(a.to_be_updated@.to_multiset().count(l) > 0);
            }
        }
        Self::lemma_reports_without(b.nodes@, order, l);
        Self::lemma_extended_append(a.events@, Self::reports(b.nodes@, order), l);
    }

    /// After updates, a node's dependents list is the one it had before.
    pub proof fn lemma_updates_keep_dependents(a: &Self, b: &Self)
        requires
            Self::updates_ran(a, b),
            a.len() <= usize::MAX,
        ensures
            b.len() == a.len(),
            forall|j: int| 0 <= j < a.len() ==> (#[trigger] b.dependents(j)) == a.dependents(j),
    {
        let order = choose|order: Seq<usize>|
            #![trigger Self::reports(b.nodes@, order)]
            {
                &&& order.to_multiset() == a.to_be_updated@.to_multiset()
                &&& forall|x: int, y: int|
                    0 <= x < y < order.len() ==> b.rank(#[trigger] order[x] as int) <= b.rank(
                        #[trigger] order[y] as int,
                    )
                &&& b.events@ == a.events@ + Self::reports(b.nodes@, order)
                &&& Self::deref_pairs(b.deferred@) == Self::deref_pairs(a.deferred@) + Self::deferrals(
                    b.nodes@,
                    order,
                )
                &&& b.to_be_updated@.len() == 0
                &&& b.len() == a.len()
                &&& Self::progress(a, b, a.to_be_updated@)
                &&& b.pre_trans@ == a.pre_trans@
            };
        Self::lemma_progress_same_graph(a, b, a.to_be_updated@);
        assert forall|j: int| 0 <= j < a.len() implies (#[trigger] b.dependents(j)) == a.dependents(j) by {
            assert(b.nodes@[j].dependents@ == a.nodes@[j].dependents@);
        }
    }

    /// A deferred firing of a node other than `l`, from a state with nothing
    /// dirty or queued, reports nothing to `l` while `l` is detached.
    pub proof fn lemma_fired_without(a: &Self, b: &Self, n: usize, v: Rc<V>, l: usize)
        requires
            Self::fired(a, b, n, *v),
            a.len() <= usize::MAX,
            a.detached(l),
            l != n,
            a.to_be_updated@.len() == 0,
            a.pre_trans@.len() == 0,
        ensures
            b.len() == a.len(),
            b.detached(l),
            b.to_be_updated@.len() == 0,
            b.pre_trans@.len() == 0,
            Self::extended_without(a.events@, b.events@, l),
    {
        let (s1, s2, s3) = choose|s1: Self, s2: Self, s3: Self|
            #![trigger Self::staged(a, &s1, n, *v), Self::pre_ran(&s1, &s2), Self::updates_ran(&s2, &s3)]
            Self::staged(a, &s1, n, *v) && Self::pre_ran(&s1, &s2) && Self::updates_ran(&s2, &s3)
                && Self::commit_ran(&s3, b);
        assert(s1.to_be_updated@ =~= s1.to_be_updated@.subrange(0, s1.to_be_updated@.len() as int));
        assert(!s1.to_be_updated@.contains(l)) by {
            if s1.to_be_updated@.contains(l) {
                let w = choose|w: int| 0 <= w < s1.to_be_updated@.len() && s1.to_be_updated@[w] == l;
                assert(s1.to_be_updated@.subrange(0, s1.to_be_updated@.len() as int)[w] == l);
                assert(s1.to_be_updated@.subrange(0, s1.to_be_updated@.len() as int).contains(l));
                a.lemma_detached_unreached(l, n);
            }
        }
        assert forall|j: int| 0 <= j < s1.len() implies (#[trigger] s1.dependents(j)) == a.dependents(j) by {
            if j != n as int {
                assert(s1.nodes@[j] == a.nodes@[j]);
            }
        }
        assert(s2.pre_trans@.len() == 0);
        assert(s1.pre_events(s1.pre_trans@) =~= Seq::<(usize, Rc<V>)>::empty());
        assert(s2.events@ =~= a.events@);
        Self::lemma_updates_without(&s2, &s3, l);
        Self::lemma_updates_keep_dependents(&s2, &s3);
        assert forall|j: int| 0 <= j < b.len() implies !(#[trigger] b.dependents(j)).contains(l) by {
            assert(b.dependents(j) == s3.dependents(j));
            assert(s3.dependents(j) == s2.dependents(j));
            assert(s2.dependents(j) == s1.dependents(j));
        }
    }

    /// Firings of nodes other than `l`, one after another from a state with
    /// nothing dirty or queued, report nothing to `l` while `l` is detached.
    pub proof fn lemma_trace_without(trace: Seq<Self>, pending: Seq<(usize, Rc<V>)>, l: usize, k: int)
        requires
            Self::fired_all(trace, pending),
            trace[0].len() <= usize::MAX,
            trace[0].detached(l),
            trace[0].to_be_updated@.len() == 0,
            trace[0].pre_trans@.len() == 0,
            forall|j: int| 0 <= j < pending.len() ==> (#[trigger] pending[j]).0 != l,
            0 <= k < trace.len(),
        ensures
            trace[k].len() == trace[0].len(),
            trace[k].detached(l),
            trace[k].to_be_updated@.len() == 0,
            trace[k].pre_trans@.len() == 0,
            Self::extended_without(trace[0].events@, trace[k].events@, l),
        decreases k,
    {
        if k == 0 {
            assert(trace[0].events@.subrange(0, trace[0].events@.len() as int) =~= trace[0].events@);
        } else {
            Self::lemma_trace_without(trace, pending, l, k - 1);
            let n = pending[k - 1].0;
            let v = pending[k - 1].1;
            assert(Self::fired(&trace[k - 1], &trace[k], n, *v));
            Self::lemma_fired_without(&trace[k - 1], &trace[k], n, v, l);
            Self::lemma_extended_trans(trace[0].events@, trace[k - 1].events@, trace[k].events@, l);
        }
    }

    /// A propagation reports nothing to a detached listener that was neither
    /// dirty nor had work queued for it.
    pub proof fn lemma_propagated_without(a: &Self, b: &Self, l: usize)
        requires
            Self::propagated(a, b),
            a.len() <= usize::MAX,
            l < a.len(),
            a.nodes@[l as int].kind is CellListener || a.nodes@[l as int].kind is StreamListener,
            a.detached(l),
            !a.to_be_updated@.contains(l),
            a.nothing_queued_for(l),
        ensures
            Self::extended_without(a.events@, b.events@, l),
    {
        let (s1, s2, s3) = choose|s1: Self, s2: Self, s3: Self|
            #![trigger Self::pre_ran(a, &s1), Self::updates_ran(&s1, &s2), Self::commit_ran(&s2, &s3)]
            Self::pre_ran(a, &s1) && Self::updates_ran(&s1, &s2) && Self::commit_ran(&s2, &s3)
                && Self::deferred_ran(&s3, b);
        a.lemma_pre_events_without(l);
        Self::lemma_extended_append(a.events@, a.pre_events(a.pre_trans@), l);
        Self::lemma_updates_without(&s1, &s2, l);
        Self::lemma_extended_trans(a.events@, s1.events@, s2.events@, l);
        Self::lemma_updates_keep_dependents(&s1, &s2);
        assert(s2.nodes@[l as int] == s1.nodes@[l as int]) by {
            reveal(SodiumCtxData::progress_in);
            assert(s2.nodes@[l as int] == s1.nodes@[l as int]);
        }
        let rounds = choose|rounds: Seq<Self>|
            #[trigger] Self::rounds_ran(rounds) && rounds.len() >= 1 && rounds[0] == s3 && rounds.last() == *b;
        assert forall|j: int| 0 <= j < s3.len() implies !(#[trigger] s3.dependents(j)).contains(l) by {
            assert(s3.dependents(j) == s2.dependents(j));
            assert(s2.dependents(j) == s1.dependents(j));
            assert(s1.dependents(j) == a.dependents(j));
        }
        Self::lemma_rounds_without(rounds, l, rounds.len() - 1);
        assert(rounds[rounds.len() - 1] == *b);
        Self::lemma_extended_trans(a.events@, s3.events@, b.events@, l);
    }

    /// Rounds of deferred firings report nothing to a detached listener.
    pub proof fn lemma_rounds_without(rounds: Seq<Self>, l: usize, k: int)
        requires
            Self::rounds_ran(rounds),
            0 <= k < rounds.len(),
            rounds[0].len() <= usize::MAX,
            l < rounds[0].len(),
            rounds[0].nodes@[l as int].kind is CellListener || rounds[0].nodes@[l as int].kind is StreamListener,
            rounds[0].detached(l),
            rounds[0].to_be_updated@.len() == 0,
            rounds[0].pre_trans@.len() == 0,
        ensures
            rounds[k].len() == rounds[0].len(),
            rounds[k].nodes@[l as int].kind == rounds[0].nodes@[l as int].kind,
            rounds[k].detached(l),
            rounds[k].to_be_updated@.len() == 0,
            rounds[k].pre_trans@.len() == 0,
            Self::extended_without(rounds[0].events@, rounds[k].events@, l),
        decreases k,
    {
        if k == 0 {
            assert(rounds[0].events@.subrange(0, rounds[0].events@.len() as int) =~= rounds[0].events@);
        } else {
            Self::lemma_rounds_without(rounds, l, k - 1);
            let a = rounds[k - 1];
            let b = rounds[k];
            assert(Self::round_ran(&a, &b));
            let trace = choose|trace: Seq<Self>|
                #[trigger] Self::fired_all(trace, a.deferred@) && Self::cleared(&a, &trace[0]) && trace.last() == b;
            assert forall|j: int| 0 <= j < trace[0].len() implies !(#[trigger] trace[0].dependents(j)).contains(l) by {
                assert(trace[0].dependents(j) == a.dependents(j));
            }
            assert forall|j: int| 0 <= j < a.deferred@.len() implies (#[trigger] a.deferred@[j]).0 != l by {
                assert(Self::defers(a.nodes@[a.deferred@[j].0 as int].kind));
            }
            Self::lemma_trace_without(trace, a.deferred@, l, trace.len() - 1);
            assert(trace[trace.len() - 1] == b);
            Self::lemma_extended_trans(rounds[0].events@, a.events@, b.events@, l);
        }
    }

    /// The values that `evs` reports to listener `l`, in order.
    pub open spec fn heard(evs: Seq<(usize, Rc<V>)>, l: usize) -> Seq<V>
        decreases evs.len(),
    {
        if evs.len() == 0 {
            Seq::empty()
        } else {
            Self::heard(evs.drop_last(), l) + if evs.last().0 == l {
                seq![*evs.last().1]
            } else {
                Seq::empty()
            }
        }
    }

    pub proof fn lemma_heard_append(x: Seq<(usize, Rc<V>)>, y: Seq<(usize, Rc<V>)>, l: usize)
        ensures
            Self::heard(x + y, l) == Self::heard(x, l) + Self::heard(y, l),
        decreases y.len(),
    {
        if y.len() == 0 {
            assert(x + y =~= x);
            assert(Self::heard(x, l) + Self::heard(y, l) =~= Self::heard(x, l));
        } else {
            Self::lemma_heard_append(x, y.drop_last(), l);
            assert((x + y).drop_last() =~= x + y.drop_last());
            assert((x + y).last() == y.last());
            assert(Self::heard(x + y, l) =~= Self::heard(x, l) + Self::heard(y, l));
        }
    }

    /// A count of `x` in `s`, by occurrences and by multiset, agree.
    pub proof fn lemma_occurrences_count(s: Seq<usize>, x: usize)
        ensures
            Self::occurrences(s, x) == s.to_multiset().count(x),
        decreases s.len(),
    {
        if s.len() > 0 {
            Self::lemma_occurrences_count(s.drop_last(), x);
            assert(s.drop_last().push(s.last()) =~= s);
        } else {
            assert(s.to_multiset() =~= vstd::multiset::Multiset::empty());
        }
    }

    /// The updates of `order` tell listener `l` what its own update reports,
    /// once, when `l` occurs once in `order`, and nothing when it does not
    /// occur.
    pub proof fn lemma_heard_reports(nodes: Seq<NodeData<V, F>>, order: Seq<usize>, l: usize)
        requires
            Self::occurrences(order, l) <= 1,
        ensures
            Self::heard(Self::reports(nodes, order), l) == if Self::occurrences(order, l) == 1 {
                Self::heard(Self::report(nodes, l), l)
            } else {
                Seq::empty()
            },
        decreases order.len(),
    {
        if order.len() == 0 {
        } else {
            let o = order.drop_last();
            let x = order.last();
            Self::lemma_heard_reports(nodes, o, l);
            Self::lemma_heard_append(Self::reports(nodes, o), Self::report(nodes, x), l);
            if x != l {
                let r = Self::report(nodes, x);
                assert(Self::heard(r, l) =~= Seq::<V>::empty()) by {
                    if r.len() > 0 {
                        assert(r.len() == 1);
                        assert(r.last().0 == x);
                        assert(r.drop_last() =~= Seq::<(usize, Rc<V>)>::empty());
                        assert(Self::heard(r.drop_last(), l) =~= Seq::<V>::empty());
                    }
                }
                assert(Self::heard(Self::reports(nodes, order), l) =~= Self::heard(Self::reports(nodes, o), l));
            } else {
                assert(Self::heard(Self::reports(nodes, order), l) =~= Self::heard(Self::report(nodes, l), l));
            }
        }
    }

    /// In the updates of a transaction, a stream's listener that was queued
    /// once is told exactly what its stream fires in the transaction (its
    /// final new value), or nothing when it fires nothing; one that was not
    /// queued is told nothing.
    pub proof fn lemma_stream_listener_hears(a: &Self, b: &Self, l: usize)
        requires
            Self::updates_ran(a, b),
            a.to_be_updated@.to_multiset().count(l) <= 1,
            b.nodes@[l as int].kind is StreamListener,
        ensures
            Self::heard(b.events@, l) == Self::heard(a.events@, l) + if a.to_be_updated@.contains(l) {
                match b.nx(b.deps(l as int)[0] as int) {
                    Some(x) => seq![x],
                    None => Seq::empty(),
                }
            } else {
                Seq::empty()
            },
    {
        let order = choose|order: Seq<usize>|
            #![trigger Self::reports(b.nodes@, order)]
            {
                &&& order.to_multiset() == a.to_be_updated@.to_multiset()
                &&& forall|x: int, y: int|
                    0 <= x < y < order.len() ==> b.rank(#[trigger] order[x] as int) <= b.rank(
                        #[trigger] order[y] as int,
                    )
                &&& b.events@ == a.events@ + Self::reports(b.nodes@, order)
                &&& Self::deref_pairs(b.deferred@) == Self::deref_pairs(a.deferred@) + Self::deferrals(
                    b.nodes@,
                    order,
                )
                &&& b.to_be_updated@.len() == 0
                &&& b.len() == a.len()
                &&& Self::progress(a, b, a.to_be_updated@)
                &&& b.pre_trans@ == a.pre_trans@
            };
        Self::lemma_occurrences_count(order, l);
        Self::lemma_heard_reports(b.nodes@, order, l);
        Self::lemma_heard_append(a.events@, Self::reports(b.nodes@, order), l);
        assert(a.to_be_updated@.contains(l) <==> a.to_be_updated@.to_multiset().count(l) > 0);
        let r = Self::report(b.nodes@, l);
        let src = b.nodes@[l as int].dependencies@[0] as int;
        match b.nodes@[src].next {
            Some(x) => {
                assert(r == seq![(l, x)]);
                assert(r.last() == (l, x));
                assert(r.drop_last() =~= Seq::<(usize, Rc<V>)>::empty());
                assert(Self::heard(r.drop_last(), l) =~= Seq::<V>::empty());
                assert(Self::heard(r, l) =~= seq![*x]);
            },
            None => {
                assert(r =~= Seq::<(usize, Rc<V>)>::empty());
            },
        }
    }
}

} // verus!
