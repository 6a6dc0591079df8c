use vstd::prelude::*;
use std::rc::Rc;

use crate::lambda::IsLambda;
use crate::node::Kind;
use crate::sodium_ctx::SodiumCtxData;

verus! {

impl<V, F: IsLambda<V>> SodiumCtxData<V, F> {
    /// Node `m` is a live cell made by `map` from a cell, and holds its
    /// function applied to the value of that cell.
    pub open spec fn map_ok(&self, m: int) -> bool {
        let src = self.deps(m)[0] as int;
        &&& 0 <= m < self.len()
        &&& self.is_cell(m)
        &&& self.nodes@[m].alive
        &&& self.is_cell(src)
        &&& match self.nodes@[m].kind {
            Kind::Apply { f } => self.val(m) == f.spec_apply(seq![self.val(src)]),
            _ => false,
        }
    }

    /// Within a transaction, the map cell `m` is due to be updated whenever
    /// it or its source has a new value, or its source is due to be updated.
    pub open spec fn map_staged(&self, m: int) -> bool {
        let src = self.deps(m)[0];
        &&& self.nodes@[m].next is Some ==> self.to_be_updated@.contains(m as usize)
        &&& (self.to_be_updated@.contains(src) || self.nodes@[src as int].next is Some)
            ==> self.to_be_updated@.contains(m as usize)
    }

    /// The updates of a propagation, then the commit of the new values, leave
    /// a map cell that was staged holding its function of its source's value.
    pub proof fn lemma_map_updated(s1: &Self, s2: &Self, s3: &Self, m: int)
        requires
            s1.graph_wf(),
            s1.len() <= usize::MAX,
            s1.map_ok(m),
            s1.map_staged(m),
            s2.len() == s1.len(),
            Self::progress(s1, s2, s1.to_be_updated@),
            Self::commit_ran(s2, s3),
        ensures
            s3.map_ok(m),
    {
        reveal(SodiumCtxData::progress_in);
        reveal(SodiumCtxData::computed_in);
        assert(s1.node_wf(m));
        let src = s1.deps(m)[0];
        let mu = m as usize;
        assert(mu as int == m);
        let n1 = s1.nodes@[m];
        let n2 = s2.nodes@[mu as int];
        let r2 = s2.nodes@[src as int];
        assert(n2.dependencies@ == n1.dependencies@);
        assert(r2.value == s1.nodes@[src as int].value);
        assert(n2.kind == n1.kind);
        assert(n2.kind == n1.kind);
        assert(s3.nodes@[m].kind == n2.kind);
        assert(s3.nodes@[m].dependencies@ == n1.dependencies@);
        assert(s3.nodes@[m].alive == n1.alive);
        match n1.kind {
            Kind::Apply { f } => {
                if s1.to_be_updated@.contains(mu) {
                    assert(Self::is_pure(n2.kind));
                    match r2.next {
                        Some(r) => {
                            assert(s3.val(src as int) == *r);
                            assert(s3.val(m) == f.spec_apply(seq![*r]));
                        },
                        None => {
                            assert(n2.next is None);
                            assert(s3.val(m) == s1.val(m));
                            assert(s3.val(src as int) == s1.val(src as int));
                        },
                    }
                } else {
                    assert(n2 == n1);
                    assert(!s1.to_be_updated@.contains(src));
                    assert(r2 == s1.nodes@[src as int]);
                    assert(s3.val(m) == s1.val(m));
                    assert(s3.val(src as int) == s1.val(src as int));
                }
            },
            _ => {},
        }
    }

    /// Staging a new value of node `n` (which is no map cell) from a state
    /// where the map cell `m` was staged leaves it staged, and holding the
    /// same values.
    pub proof fn lemma_map_staged_by_send(a: &Self, b: &Self, n: usize, v: V, m: int)
        requires
            a.graph_wf(),
            a.map_ok(m),
            a.map_staged(m),
            !(a.nodes@[n as int].kind is Apply),
            Self::staged(a, b, n, v),
        ensures
            b.map_ok(m),
            b.map_staged(m),
    {
        assert(a.node_wf(m));
        let src = a.deps(m)[0];
        let mu = m as usize;
        assert(m != n as int);
        assert(b.nodes@[m] == a.nodes@[m]);
        assert(b.nodes@[src as int].value == a.nodes@[src as int].value);
        assert(a.dependents(src as int).contains(mu)) by {
            assert(a.deps(m)[0] == src);
        }
        let qa = a.to_be_updated@;
        let qb = b.to_be_updated@;
        let marked = qb.subrange(qa.len() as int, qb.len() as int);
        assert forall|x: usize| qa.contains(x) implies qb.contains(x) by {
            let w = choose|w: int| 0 <= w < qa.len() && qa[w] == x;
            assert(qb.subrange(0, qa.len() as int)[w] == x);
        }
        assert forall|x: usize| marked.contains(x) implies qb.contains(x) by {
            let w = choose|w: int| 0 <= w < marked.len() && marked[w] == x;
            assert(qb[qa.len() + w] == x);
        }
        assert forall|x: usize| qb.contains(x) implies qa.contains(x) || marked.contains(x) by {
            let w = choose|w: int| 0 <= w < qb.len() && qb[w] == x;
            if w < qa.len() {
                assert(qb.subrange(0, qa.len() as int)[w] == x);
            } else {
                assert(marked[w - qa.len()] == x);
            }
        }
        if a.reaches(n, src) {
            a.lemma_reaches_step(n, src, mu);
            assert(marked.contains(mu));
        }
        if src == n {
            a.lemma_reaches_self(n);
        }
    }

    /// A node whose one dependency is a node without dependencies is reached
    /// by no change but theirs.
    pub proof fn lemma_sink_fed_unreached(&self, n: usize, id: usize, h: usize)
        requires
            self.graph_wf(),
            self.deps(h as int) == seq![id],
            self.deps(id as int).len() == 0,
            n != id,
            n != h,
        ensures
            !self.reaches(n, h),
    {
        if self.reaches(n, h) {
            let d = self.lemma_reach_last_edge(n, h);
            assert(d == id) by {
                let w = choose|w: int| 0 <= w < self.deps(h as int).len() && self.deps(h as int)[w] == d;
            }
            let d2 = self.lemma_reach_last_edge(n, id);
            assert(false) by {
                let w = choose|w: int| 0 <= w < self.deps(id as int).len() && self.deps(id as int)[w] == d2;
            }
        }
    }

    /// A deferred firing that does not reach node `x` leaves its value as it
    /// was, and the dependents lists too.
    pub proof fn lemma_fired_keeps(a: &Self, b: &Self, n: usize, v: Rc<V>, x: usize)
        requires
            Self::fired(a, b, n, *v),
            a.len() <= usize::MAX,
            x < a.len(),
            a.to_be_updated@.len() == 0,
            a.nodes@[x as int].next is None,
            !a.reaches(n, x),
        ensures
            b.len() == a.len(),
            forall|j: int| 0 <= j < a.len() ==> (#[trigger] b.dependents(j)) == a.dependents(j),
            b.nodes@[x as int].value == a.nodes@[x as int].value,
            b.nodes@[x as int].next is None,
            b.to_be_updated@.len() == 0,
    {
        let (s1, s2, s3) = choose|s1: Self, s2: Self, s3: Self|
            #![trigger Self::staged(a, &s1, n, *v), Self::pre_ran(&s1, &s2), Self::updates_ran(&s2, &s3)]
            Self::staged(a, &s1, n, *v) && Self::pre_ran(&s1, &s2) && Self::updates_ran(&s2, &s3)
                && Self::commit_ran(&s3, b);
        if n < a.len() {
            a.lemma_reaches_self(n);
        }
        assert(x != n);
        assert(s1.to_be_updated@ =~= s1.to_be_updated@.subrange(0, s1.to_be_updated@.len() as int));
        assert(!s1.to_be_updated@.contains(x)) by {
            if s1.to_be_updated@.contains(x) {
                let w = choose|w: int| 0 <= w < s1.to_be_updated@.len() && s1.to_be_updated@[w] == x;
                assert(s1.to_be_updated@.subrange(0, s1.to_be_updated@.len() as int)[w] == x);
                assert(s1.to_be_updated@.subrange(0, s1.to_be_updated@.len() as int).contains(x));
            }
        }
        assert(s1.nodes@[x as int] == a.nodes@[x as int]);
        assert(s3.nodes@[x as int] == s2.nodes@[x as int]) by {
            reveal(SodiumCtxData::progress_in);
            assert(s3.nodes@[x as int] == s2.nodes@[x as int]);
        }
        Self::lemma_updates_keep_dependents(&s2, &s3);
        assert forall|j: int| 0 <= j < a.len() implies (#[trigger] b.dependents(j)) == a.dependents(j) by {
            if j != n as int {
                assert(s1.nodes@[j] == a.nodes@[j]);
            }
            assert(s1.dependents(j) == a.dependents(j));
            assert(s3.dependents(j) == s2.dependents(j));
            assert(b.dependents(j) == s3.dependents(j));
        }
    }

    /// Deferred firings, none of which reaches node `x`, leave its value as
    /// it was.
    pub proof fn lemma_trace_keeps(trace: Seq<Self>, pending: Seq<(usize, Rc<V>)>, x: usize, k: int)
        requires
            Self::fired_all(trace, pending),
            trace[0].len() <= usize::MAX,
            x < trace[0].len(),
            trace[0].to_be_updated@.len() == 0,
            trace[0].nodes@[x as int].next is None,
            forall|j: int| 0 <= j < pending.len() ==> !trace[0].reaches((#[trigger] pending[j]).0, x),
            0 <= k < trace.len(),
        ensures
            trace[k].len() == trace[0].len(),
            forall|j: int| 0 <= j < trace[0].len() ==> (#[trigger] trace[k].dependents(j)) == trace[0].dependents(j),
            trace[k].nodes@[x as int].value == trace[0].nodes@[x as int].value,
            trace[k].nodes@[x as int].next is None,
            trace[k].to_be_updated@.len() == 0,
        decreases k,
    {
        if k > 0 {
            Self::lemma_trace_keeps(trace, pending, x, k - 1);
            let n = pending[k - 1].0;
            let v = pending[k - 1].1;
            Self::lemma_reaches_same(&trace[0], &trace[k - 1]);
            assert(!trace[0].reaches(n, x));
            assert(!trace[k - 1].reaches(n, x));
            assert(Self::fired(&trace[k - 1], &trace[k], n, *v));
            Self::lemma_fired_keeps(&trace[k - 1], &trace[k], n, v, x);
        }
    }

    /// Rounds of deferred firings leave the value of a node fed by a sink
    /// alone: no deferring node reaches it.
    pub proof fn lemma_rounds_keep(rounds: Seq<Self>, x: usize, id: usize, k: int)
        requires
            Self::rounds_ran(rounds),
            0 <= k < rounds.len(),
            rounds[0].len() <= usize::MAX,
            x < rounds[0].len(),
            rounds[0].nodes@[x as int].next is None,
            rounds[0].to_be_updated@.len() == 0,
            rounds[0].deps(x as int) == seq![id],
            rounds[0].deps(id as int).len() == 0,
            rounds[0].nodes@[id as int].kind is Sink,
            rounds[0].nodes@[x as int].kind is Forward,
        ensures
            rounds[k].len() == rounds[0].len(),
            rounds[k].nodes@[x as int].value == rounds[0].nodes@[x as int].value,
            rounds[k].nodes@[x as int].next is None,
            rounds[k].to_be_updated@.len() == 0,
            rounds[k].deps(x as int) == seq![id],
            rounds[k].deps(id as int).len() == 0,
            rounds[k].nodes@[id as int].kind is Sink,
            rounds[k].nodes@[x as int].kind is Forward,
        decreases k,
    {
        if k > 0 {
            Self::lemma_rounds_keep(rounds, x, id, k - 1);
            let a = rounds[k - 1];
            let b = rounds[k];
            assert(Self::round_ran(&a, &b));
            let trace = choose|trace: Seq<Self>|
                #[trigger] Self::fired_all(trace, a.deferred@) && Self::cleared(&a, &trace[0]) && trace.last() == b;
            assert(a.node_wf(x as int));
            assert(a.deps(x as int)[0] == id);
            assert(id < a.len());
            Self::lemma_reaches_same(&a, &trace[0]);
            assert forall|j: int| 0 <= j < a.deferred@.len() implies !trace[0].reaches((#[trigger] a.deferred@[j]).0, x) by {
                let n = a.deferred@[j].0;
                assert(Self::defers(a.nodes@[n as int].kind));
                a.lemma_sink_fed_unreached(n, id, x);
            }
            Self::lemma_trace_keeps(trace, a.deferred@, x, trace.len() - 1);
            assert(trace[trace.len() - 1] == b);
            assert(b.nodes@[x as int].dependencies@ == a.nodes@[x as int].dependencies@);
            assert(b.nodes@[id as int].dependencies@ == a.nodes@[id as int].dependencies@);
        }
    }

    /// Marking dirty what a node reaches, with no new value anywhere, keeps
    /// a map cell due to follow its source: the marked set holds every
    /// dependent of its members.
    pub proof fn lemma_map_staged_by_mark(a: &Self, b: &Self, n: usize, marked: Seq<usize>, m: int)
        requires
            a.graph_wf(),
            a.map_ok(m),
            a.map_staged(m),
            b.nodes@ == a.nodes@,
            b.to_be_updated@ == a.to_be_updated@ + marked,
            forall|x: usize| #[trigger] marked.contains(x) <==> (x < a.len() && a.reaches(n, x)),
        ensures
            b.map_ok(m),
            b.map_staged(m),
    {
        assert(a.node_wf(m));
        let src = a.deps(m)[0];
        let mu = m as usize;
        assert(a.dependents(src as int).contains(mu)) by {
            assert(a.deps(m)[0] == src);
        }
        let qa = a.to_be_updated@;
        let qb = b.to_be_updated@;
        assert forall|x: usize| qa.contains(x) implies qb.contains(x) by {
            let w = choose|w: int| 0 <= w < qa.len() && qa[w] == x;
            assert(qb[w] == x);
        }
        assert forall|x: usize| marked.contains(x) implies qb.contains(x) by {
            let w = choose|w: int| 0 <= w < marked.len() && marked[w] == x;
            assert(qb[qa.len() + w] == x);
        }
        assert forall|x: usize| qb.contains(x) implies qa.contains(x) || marked.contains(x) by {
            let w = choose|w: int| 0 <= w < qb.len() && qb[w] == x;
            if w < qa.len() {
                assert(qa[w] == x);
            } else {
                assert(marked[w - qa.len()] == x);
            }
        }
        if a.reaches(n, src) {
            a.lemma_reaches_step(n, src, mu);
            assert(marked.contains(mu));
        }
    }

    /// Adding a node keeps a map cell's value and keeps it due to follow its
    /// source (the queue only grows).
    pub proof fn lemma_map_staged_by_new_node(
        a: &Self,
        b: &Self,
        kind: Kind<F>,
        deps: Seq<usize>,
        value: Option<Rc<V>>,
        m: int,
    )
        requires
            a.graph_wf(),
            a.len() < usize::MAX,
            Self::added_but_pre(a, b, kind, deps, value),
            a.map_ok(m),
            a.map_staged(m),
        ensures
            b.map_ok(m),
            b.map_staged(m),
    {
        assert(a.node_wf(m));
        let src = a.deps(m)[0];
        assert(a.deps(m)[0] < m);
        assert(Self::same_but_dependents(a.nodes@[m], b.nodes@[m]));
        assert(Self::same_but_dependents(a.nodes@[src as int], b.nodes@[src as int]));
        let qa = a.to_be_updated@;
        let qb = b.to_be_updated@;
        assert forall|x: usize| qa.contains(x) implies qb.contains(x) by {
            let w = choose|w: int| 0 <= w < qa.len() && qa[w] == x;
            assert(qb[w] == x);
        }
        assert forall|x: usize| qb.contains(x) && x < a.len() implies qa.contains(x) by {
            let w = choose|w: int| 0 <= w < qb.len() && qb[w] == x;
            if w >= qa.len() {
                assert(Self::joining(a, kind, deps)[w - qa.len()] == x);
            } else {
                assert(qa[w] == x);
            }
        }
    }
}

} // verus!
