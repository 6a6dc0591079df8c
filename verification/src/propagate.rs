use vstd::prelude::*;
use std::rc::Rc;
use vstd::multiset::Multiset;

use crate::lambda::{IsLambda, deref_all, opt_val};
use crate::node::{Kind, NodeData};
use crate::sodium_ctx::SodiumCtxData;

verus! {

broadcast use vstd::seq_lib::group_to_multiset_ensures;

impl<V, F: IsLambda<V>> SodiumCtxData<V, F> {
    /// The values of the cells `cells`.
    pub open spec fn vals_in(nodes: Seq<NodeData<V, F>>, cells: Seq<usize>) -> Seq<V> {
        cells.map_values(|c: usize| *nodes[c as int].value.unwrap())
    }

    /// Every node of `deps` has a new value.
    pub open spec fn all_next_in(nodes: Seq<NodeData<V, F>>, deps: Seq<usize>) -> bool {
        forall|k: int| 0 <= k < deps.len() ==> (#[trigger] nodes[deps[k] as int]).next is Some
    }

    /// The new values of the nodes of `deps`.
    pub open spec fn nexts_in(nodes: Seq<NodeData<V, F>>, deps: Seq<usize>) -> Seq<V> {
        deps.map_values(|c: usize| *nodes[c as int].next.unwrap())
    }

    pub open spec fn vals(&self, cells: Seq<usize>) -> Seq<V> {
        Self::vals_in(self.nodes@, cells)
    }

    pub open spec fn all_next(&self, deps: Seq<usize>) -> bool {
        Self::all_next_in(self.nodes@, deps)
    }

    pub open spec fn nexts(&self, deps: Seq<usize>) -> Seq<V> {
        Self::nexts_in(self.nodes@, deps)
    }

    pub open spec fn computed_next(&self, i: int) -> Option<V> {
        Self::computed_in(self.nodes@, i)
    }

    /// The new value that an update gives node `i`, read from the new values
    /// of its inputs and from the values of the cells it samples.
    #[verifier::opaque]
    pub open spec fn computed_in(nodes: Seq<NodeData<V, F>>, i: int) -> Option<V> {
        let nd = nodes[i];
        let src = nd.dependencies@[0] as int;
        match nd.kind {
            Kind::Apply { f } => match opt_val(nodes[src].next) {
                Some(a) => Some(f.spec_apply(seq![a])),
                None => None,
            },
            Kind::Filter { f } => match opt_val(nodes[src].next) {
                Some(a) => if f.spec_test(a) {
                    Some(a)
                } else {
                    None
                },
                None => None,
            },
            Kind::FilterOption => match opt_val(nodes[src].next) {
                Some(a) => F::spec_as_option(a),
                None => None,
            },
            Kind::Snapshot { cell } => match opt_val(nodes[src].next) {
                Some(_) => Some(*nodes[cell as int].value.unwrap()),
                None => None,
            },
            Kind::SnapshotWith { cells, f } => match opt_val(nodes[src].next) {
                Some(a) => Some(f.spec_apply(seq![a] + Self::vals_in(nodes, cells@))),
                None => None,
            },
            Kind::Forward => opt_val(nodes[src].next),
            Kind::Lift { f } => if Self::all_next_in(nodes, nd.dependencies@) {
                Some(f.spec_apply(Self::nexts_in(nodes, nd.dependencies@)))
            } else {
                None
            },
            _ => opt_val(nodes[i].next),
        }
    }

    /// What an update of node `i` reports to listeners.
    pub open spec fn events_after(&self, i: int) -> Seq<(usize, Rc<V>)> {
        let nd = self.nodes@[i];
        let src = nd.dependencies@[0] as int;
        let sn = self.nodes@[src].next;
        match nd.kind {
            Kind::CellListener => self.events@.push(
                (
                    i as usize,
                    match sn {
                        Some(r) => r,
                        None => self.nodes@[src].value.unwrap(),
                    },
                ),
            ),
            Kind::StreamListener => match sn {
                Some(r) => self.events@.push((i as usize, r)),
                None => self.events@,
            },
            _ => self.events@,
        }
    }

    /// `after` is what an update of node `i` leaves of `before`, as far as
    /// the deferred firings go.
    pub open spec fn deferred_ok(before: &Self, after: &Self, i: int) -> bool {
        let nd = before.nodes@[i];
        let src = nd.dependencies@[0] as int;
        let sn = before.nodes@[src].next;
        match nd.kind {
            Kind::Split { f } => match sn {
                Some(r) => {
                    let parts = f.spec_split(*r);
                    let old_len = before.deferred@.len();
                    &&& after.deferred@.len() == old_len + parts.len()
                    &&& after.deferred@.subrange(0, old_len as int) == before.deferred@
                    &&& forall|k: int|
                        0 <= k < parts.len() ==> (#[trigger] after.deferred@[old_len + k]).0 == i
                            && *after.deferred@[old_len + k].1 == parts[k]
                },
                None => after.deferred@ == before.deferred@,
            },
            Kind::Defer => match sn {
                Some(r) => after.deferred@ == before.deferred@.push((i as usize, r)),
                None => after.deferred@ == before.deferred@,
            },
            _ => after.deferred@ == before.deferred@,
        }
    }

    /// `after` is `before` with node `i` updated.
    pub open spec fn updated(before: &Self, after: &Self, i: int) -> bool {
        let a = before.nodes@[i];
        let b = after.nodes@[i];
        &&& after.len() == before.len()
        &&& forall|j: int| 0 <= j < before.len() && j != i ==> #[trigger] after.nodes@[j] == before.nodes@[j]
        &&& b.rank == a.rank
        &&& b.dependencies@ == a.dependencies@
        &&& b.dependents@ == a.dependents@
        &&& b.alive == a.alive
        &&& b.value == a.value
        &&& b.kind == a.kind
        &&& opt_val(b.next) == before.computed_next(i)
        &&& (before.computed_next(i) == before.nx(i) ==> b.next == a.next)
        &&& after.events@ == before.events_after(i)
        &&& Self::deferred_ok(before, after, i)
        &&& after.transaction_depth == before.transaction_depth
        &&& after.to_be_updated@ == before.to_be_updated@
        &&& after.pre_trans@ == before.pre_trans@
    }

    fn next_of(&self, j: usize) -> (r: Option<Rc<V>>)
        requires
            j < self.len(),
        ensures
            r == self.nodes@[j as int].next,
    {
        match &self.nodes[j].next {
            Some(r) => Some(r.clone()),
            None => None,
        }
    }

    fn value_of(&self, j: usize) -> (r: Rc<V>)
        requires
            self.is_cell(j as int),
        ensures
            r == self.nodes@[j as int].value.unwrap(),
    {
        match &self.nodes[j].value {
            Some(r) => r.clone(),
            None => vstd::pervasive::unreached(),
        }
    }

    /// Collects the new values of `deps`, or `None` when one of them has none.
    fn collect_nexts(&self, deps: &Vec<usize>) -> (r: Option<Vec<Rc<V>>>)
        requires
            forall|k: int| 0 <= k < deps@.len() ==> #[trigger] deps@[k] < self.len(),
        ensures
            r is Some <==> self.all_next(deps@),
            r matches Some(args) ==> deref_all(args@) == self.nexts(deps@),
    {
        let mut args: Vec<Rc<V>> = Vec::new();
        let mut k: usize = 0;
        while k < deps.len()
            invariant
                k <= deps@.len(),
                forall|k: int| 0 <= k < deps@.len() ==> #[trigger] deps@[k] < self.len(),
                args@.len() == k,
                forall|j: int| 0 <= j < k ==> (#[trigger] self.nodes@[deps@[j] as int]).next == Some(args@[j]),
            decreases deps@.len() - k,
        {
            match self.next_of(deps[k]) {
                Some(a) => {
                    args.push(a);
                },
                None => {
                    proof {
                        assert(!self.all_next(deps@)) by {
                            assert(self.nodes@[deps@[k as int] as int].next is None);
                        }
                    }
                    return None;
                },
            }
            k = k + 1;
        }
        proof {
            assert(deref_all(args@) =~= self.nexts(deps@)) by {
                assert forall|j: int| 0 <= j < args@.len() implies deref_all(args@)[j] == self.nexts(deps@)[j] by {
                    assert(self.nodes@[deps@[j] as int].next == Some(args@[j]));
                }
            }
        }
        Some(args)
    }

    /// Collects `first` followed by the values of the cells `cells`.
    fn collect_values(&self, first: Rc<V>, cells: &Vec<usize>) -> (r: Vec<Rc<V>>)
        requires
            forall|k: int| 0 <= k < cells@.len() ==> self.is_cell(#[trigger] cells@[k] as int),
        ensures
            deref_all(r@) == seq![*first] + self.vals(cells@),
    {
        let mut args: Vec<Rc<V>> = Vec::new();
        args.push(first);
        let ghost f0 = args@[0];
        let mut k: usize = 0;
        while k < cells.len()
            invariant
                k <= cells@.len(),
                forall|k: int| 0 <= k < cells@.len() ==> self.is_cell(#[trigger] cells@[k] as int),
                args@.len() == k + 1,
                args@[0] == f0,
                *f0 == *first,
                forall|j: int| 0 <= j < k ==> (#[trigger] self.nodes@[cells@[j] as int]).value == Some(args@[j + 1]),
            decreases cells@.len() - k,
        {
            let v = self.value_of(cells[k]);
            args.push(v);
            k = k + 1;
        }
        proof {
            assert(deref_all(args@) =~= seq![*first] + self.vals(cells@)) by {
                assert forall|j: int| 0 <= j < args@.len() implies deref_all(args@)[j] == (seq![*first] + self.vals(cells@))[j] by {
                    if j > 0 {
                        assert(self.nodes@[cells@[j - 1] as int].value == Some(args@[j]));
                    }
                }
            }
        }
        args
    }

    /// Recomputes node `i`: its new value from those of its inputs, and what
    /// it reports to its listener or fires later.
    pub fn update_node(&mut self, i: usize)
        requires
            old(self).graph_wf(),
            i < old(self).len(),
        ensures
            final(self).graph_wf(),
            Self::updated(old(self), final(self), i as int),
    {
        let ghost before = *self;
        proof {
            assert(self.node_wf(i as int));
            reveal(SodiumCtxData::computed_in);
        }
        let mut new_next: Option<Rc<V>> = self.next_of(i);
        let mut event: Option<Rc<V>> = None;
        let mut later: Vec<V> = Vec::new();
        let mut later_one: Option<Rc<V>> = None;
        match &self.nodes[i].kind {
            Kind::Apply { f } => {
                let src = self.nodes[i].dependencies[0];
                match self.next_of(src) {
                    Some(a) => {
                        let mut args: Vec<Rc<V>> = Vec::new();
                        args.push(a);
                        proof {
                            assert(deref_all(args@) =~= seq![*args@[0]]);
                        }
                        new_next = Some(Rc::new(f.apply(&args)));
                    },
                    None => {
                        new_next = None;
                    },
                }
            },
            Kind::Filter { f } => {
                let src = self.nodes[i].dependencies[0];
                match self.next_of(src) {
                    Some(a) => {
                        if f.test(&*a) {
                            new_next = Some(a);
                        } else {
                            new_next = None;
                        }
                    },
                    None => {
                        new_next = None;
                    },
                }
            },
            Kind::FilterOption => {
                let src = self.nodes[i].dependencies[0];
                match self.next_of(src) {
                    Some(a) => {
                        match F::as_option(&*a) {
                            Some(b) => {
                                new_next = Some(Rc::new(b));
                            },
                            None => {
                                new_next = None;
                            },
                        }
                    },
                    None => {
                        new_next = None;
                    },
                }
            },
            Kind::Snapshot { cell } => {
                let src = self.nodes[i].dependencies[0];
                match self.next_of(src) {
                    Some(_) => {
                        new_next = Some(self.value_of(*cell));
                    },
                    None => {
                        new_next = None;
                    },
                }
            },
            Kind::SnapshotWith { cells, f } => {
                let src = self.nodes[i].dependencies[0];
                match self.next_of(src) {
                    Some(a) => {
                        let args = self.collect_values(a, cells);
                        new_next = Some(Rc::new(f.apply(&args)));
                    },
                    None => {
                        new_next = None;
                    },
                }
            },
            Kind::Forward => {
                let src = self.nodes[i].dependencies[0];
                new_next = self.next_of(src);
            },
            Kind::Lift { f } => {
                match self.collect_nexts(&self.nodes[i].dependencies) {
                    Some(args) => {
                        new_next = Some(Rc::new(f.apply(&args)));
                    },
                    None => {
                        new_next = None;
                    },
                }
            },
            Kind::Split { f } => {
                let src = self.nodes[i].dependencies[0];
                match self.next_of(src) {
                    Some(a) => {
                        later = f.split(&*a);
                    },
                    None => {},
                }
            },
            Kind::Defer => {
                let src = self.nodes[i].dependencies[0];
                later_one = self.next_of(src);
            },
            Kind::CellListener => {
                let src = self.nodes[i].dependencies[0];
                match self.next_of(src) {
                    Some(a) => {
                        event = Some(a);
                    },
                    None => {
                        event = Some(self.value_of(src));
                    },
                }
            },
            Kind::StreamListener => {
                let src = self.nodes[i].dependencies[0];
                event = self.next_of(src);
            },
            _ => {},
        }
        proof {
            assert(opt_val(new_next) == before.computed_next(i as int));
            let src = before.nodes@[i as int].dependencies@[0] as int;
            assert(match before.nodes@[i as int].kind {
                Kind::Split { f } => match before.nodes@[src].next {
                    Some(r) => later@ == f.spec_split(*r),
                    None => later@.len() == 0,
                },
                _ => later@.len() == 0,
            });
            assert(match before.nodes@[i as int].kind {
                Kind::Defer => later_one == before.nodes@[src].next,
                _ => later_one is None,
            });
        }
        let ghost keep = before.computed_next(i as int) == before.nx(i as int);
        self.nodes[i].next = new_next;
        match event {
            Some(e) => {
                self.events.push((i, e));
            },
            None => {},
        }
        match later_one {
            Some(e) => {
                self.deferred.push((i, e));
            },
            None => {},
        }
        let ghost parts = later@;
        let ghost mid = *self;
        let ghost mut k: int = 0;
        while later.len() > 0
            invariant
                later@ == parts.subrange(k, parts.len() as int),
                0 <= k <= parts.len(),
                self.nodes@ == mid.nodes@,
                self.events@ == mid.events@,
                self.transaction_depth == mid.transaction_depth,
                self.to_be_updated@ == mid.to_be_updated@,
                self.pre_trans@ == mid.pre_trans@,
                self.deferred@.len() == mid.deferred@.len() + k,
                self.deferred@.subrange(0, mid.deferred@.len() as int) == mid.deferred@,
                forall|j: int| 0 <= j < k ==> (#[trigger] self.deferred@[mid.deferred@.len() + j]).0 == i
                    && *self.deferred@[mid.deferred@.len() + j].1 == parts[j],
            decreases later@.len(),
        {
            let ghost l0 = later@;
            let v = later.remove(0);
            let ghost d0 = self.deferred@;
            self.deferred.push((i, Rc::new(v)));
            proof {
                assert(l0[0] == parts[k]);
                assert(v == parts[k]);
                assert(later@ =~= parts.subrange(k + 1, parts.len() as int));
                assert(self.deferred@.subrange(0, mid.deferred@.len() as int) =~= d0.subrange(0, mid.deferred@.len() as int));
                assert forall|j: int| 0 <= j < k + 1 implies (#[trigger] self.deferred@[mid.deferred@.len() + j]).0 == i
                    && *self.deferred@[mid.deferred@.len() + j].1 == parts[j] by {
                    if j < k {
                        assert(self.deferred@[mid.deferred@.len() + j] == d0[mid.deferred@.len() + j]);
                    }
                }
            }
            proof {
                k = k + 1;
            }
        }
        proof {
            assert(later@.len() == 0);
            assert(k == parts.len());
            assert(self.node_wf(i as int)) by {
                assert(before.node_wf(i as int));
            }
            assert forall|j: int| 0 <= j < self.len() implies #[trigger] self.node_wf(j) by {
                assert(before.node_wf(j));
                assert forall|c: int| 0 <= c < self.len() implies (Self::cell_in(self.nodes@, c) == Self::cell_in(before.nodes@, c)) by {}
            }
            assert forall|k2: int| 0 <= k2 < self.deferred@.len() implies (#[trigger] self.deferred@[k2]).0 < self.len()
                && Self::defers(self.nodes@[self.deferred@[k2].0 as int].kind) by {
                if k2 < mid.deferred@.len() {
                    assert(self.deferred@.subrange(0, mid.deferred@.len() as int)[k2] == mid.deferred@[k2]);
                    if k2 < before.deferred@.len() {
                        assert(mid.deferred@[k2] == before.deferred@[k2]);
                    }
                } else {
                    let j = k2 - mid.deferred@.len();
                    assert(self.deferred@[mid.deferred@.len() + j].0 == i);
                }
            }
            if later_one is None {
                assert(mid.deferred@ == before.deferred@);
            }
            if parts.len() == 0 {
                assert(self.deferred@ =~= self.deferred@.subrange(0, mid.deferred@.len() as int));
            }
            let src = before.nodes@[i as int].dependencies@[0] as int;
            match before.nodes@[i as int].kind {
                Kind::Split { f } => {
                    match before.nodes@[src].next {
                        Some(r) => {
                            assert(mid.deferred@ == before.deferred@);
                            assert(parts == f.spec_split(*r));
                        },
                        None => {},
                    }
                },
                _ => {},
            }
            assert(Self::deferred_ok(&before, self, i as int));
            assert(keep ==> self.nodes@[i as int].next == before.nodes@[i as int].next);
        }
    }

    /// What the update of node `l` reports to its listener.
    pub open spec fn report(nodes: Seq<NodeData<V, F>>, l: usize) -> Seq<(usize, Rc<V>)> {
        let nd = nodes[l as int];
        let src = nd.dependencies@[0] as int;
        match nd.kind {
            Kind::CellListener => seq![
                (
                    l,
                    match nodes[src].next {
                        Some(r) => r,
                        None => nodes[src].value.unwrap(),
                    },
                ),
            ],
            Kind::StreamListener => match nodes[src].next {
                Some(r) => seq![(l, r)],
                None => Seq::empty(),
            },
            _ => Seq::empty(),
        }
    }

    /// What the updates of the nodes of `order`, in order, report.
    pub open spec fn reports(nodes: Seq<NodeData<V, F>>, order: Seq<usize>) -> Seq<(usize, Rc<V>)>
        decreases order.len(),
    {
        if order.len() == 0 {
            Seq::empty()
        } else {
            Self::reports(nodes, order.drop_last()) + Self::report(nodes, order.last())
        }
    }

    /// The pairs of a list, with the values behind the handles.
    pub open spec fn deref_pairs(s: Seq<(usize, Rc<V>)>) -> Seq<(usize, V)> {
        s.map_values(|p: (usize, Rc<V>)| (p.0, *p.1))
    }

    /// What the update of node `i` leaves to fire in later transactions.
    pub open spec fn deferral(nodes: Seq<NodeData<V, F>>, i: usize) -> Seq<(usize, V)> {
        let nd = nodes[i as int];
        let src = nd.dependencies@[0] as int;
        match nd.kind {
            Kind::Split { f } => match nodes[src].next {
                Some(r) => f.spec_split(*r).map_values(|x: V| (i, x)),
                None => Seq::empty(),
            },
            Kind::Defer => match nodes[src].next {
                Some(r) => seq![(i, *r)],
                None => Seq::empty(),
            },
            _ => Seq::empty(),
        }
    }

    /// What the updates of the nodes of `order`, in order, leave to fire later.
    pub open spec fn deferrals(nodes: Seq<NodeData<V, F>>, order: Seq<usize>) -> Seq<(usize, V)>
        decreases order.len(),
    {
        if order.len() == 0 {
            Seq::empty()
        } else {
            Self::deferrals(nodes, order.drop_last()) + Self::deferral(nodes, order.last())
        }
    }

    /// An update adds to the reports and to the deferred firings exactly what
    /// `report` and `deferral` say.
    pub proof fn lemma_updated_outputs(before: &Self, after: &Self, p: usize)
        requires
            before.graph_wf(),
            p < before.len(),
            Self::updated(before, after, p as int),
        ensures
            after.events@ == before.events@ + Self::report(before.nodes@, p),
            Self::deref_pairs(after.deferred@) == Self::deref_pairs(before.deferred@) + Self::deferral(
                before.nodes@,
                p,
            ),
    {
        assert(before.node_wf(p as int));
        let nd = before.nodes@[p as int];
        let src = nd.dependencies@[0] as int;
        match nd.kind {
            Kind::CellListener => {
                assert(after.events@ =~= before.events@ + Self::report(before.nodes@, p));
            },
            Kind::StreamListener => {
                assert(after.events@ =~= before.events@ + Self::report(before.nodes@, p));
            },
            _ => {
                assert(after.events@ =~= before.events@ + Self::report(before.nodes@, p));
            },
        }
        let od = before.deferred@;
        let ad = after.deferred@;
        match nd.kind {
            Kind::Split { f } => {
                match before.nodes@[src].next {
                    Some(r) => {
                        let parts = f.spec_split(opt_val(before.nodes@[src].next).unwrap());
                        assert(Self::deref_pairs(ad) =~= Self::deref_pairs(od) + Self::deferral(before.nodes@, p)) by {
                            assert forall|k: int| 0 <= k < ad.len() implies Self::deref_pairs(ad)[k]
                                == (Self::deref_pairs(od) + Self::deferral(before.nodes@, p))[k] by {
                                if k < od.len() {
                                    assert(ad.subrange(0, od.len() as int)[k] == od[k]);
                                } else {
                                    let j = k - od.len();
                                    assert(ad[od.len() + j].0 == p && *ad[od.len() + j].1 == parts[j]);
                                }
                            }
                        }
                    },
                    None => {
                        assert(Self::deref_pairs(ad) =~= Self::deref_pairs(od) + Self::deferral(before.nodes@, p));
                    },
                }
            },
            _ => {
                assert(Self::deref_pairs(ad) =~= Self::deref_pairs(od) + Self::deferral(before.nodes@, p));
            },
        }
    }

    /// Reports and deferrals of the nodes of `order` agree in two states where
    /// those of each node of `order` agree.
    pub proof fn lemma_outputs_frame(n1: Seq<NodeData<V, F>>, n2: Seq<NodeData<V, F>>, order: Seq<usize>)
        requires
            forall|k: int|
                0 <= k < order.len() ==> Self::report(n1, #[trigger] order[k]) == Self::report(n2, order[k])
                    && Self::deferral(n1, order[k]) == Self::deferral(n2, order[k]),
        ensures
            Self::reports(n1, order) == Self::reports(n2, order),
            Self::deferrals(n1, order) == Self::deferrals(n2, order),
        decreases order.len(),
    {
        if order.len() > 0 {
            let o = order.drop_last();
            assert forall|k: int| 0 <= k < o.len() implies Self::report(n1, #[trigger] o[k]) == Self::report(n2, o[k])
                && Self::deferral(n1, o[k]) == Self::deferral(n2, o[k]) by {
                assert(o[k] == order[k]);
            }
            Self::lemma_outputs_frame(n1, n2, o);
            assert(order.last() == order[order.len() - 1]);
        }
    }

    /// An update of `p` leaves what a node of rank at most `p`'s reports and
    /// defers as it was.
    pub proof fn lemma_output_frame_one(mid: &Self, after: &Self, p: usize, l: usize)
        requires
            mid.graph_wf(),
            p < mid.len(),
            l < mid.len(),
            Self::updated(mid, after, p as int),
            mid.rank(l as int) <= mid.rank(p as int),
        ensures
            Self::report(mid.nodes@, l) == Self::report(after.nodes@, l),
            Self::deferral(mid.nodes@, l) == Self::deferral(after.nodes@, l),
    {
        assert(mid.node_wf(l as int));
        let nd = mid.nodes@[l as int];
        if nd.dependencies@.len() > 0 {
            let d = nd.dependencies@[0];
            assert(mid.rank(d as int) < mid.rank(l as int));
            assert(d != p);
            assert(after.nodes@[d as int] == mid.nodes@[d as int]);
        }
        if l == p {
            assert(after.nodes@[l as int].dependencies@ == nd.dependencies@);
        } else {
            assert(after.nodes@[l as int] == nd);
        }
    }

    /// The kinds whose update leaves their new value as it is.
    pub open spec fn passive(kind: Kind<F>) -> bool {
        !Self::is_pure(kind)
    }

    /// The kinds whose new value is a function of their inputs alone.
    pub open spec fn is_pure(kind: Kind<F>) -> bool {
        match kind {
            Kind::Apply { .. } | Kind::Filter { .. } | Kind::FilterOption | Kind::Snapshot {
                ..
            } | Kind::SnapshotWith { .. } | Kind::Forward | Kind::Lift { .. } => true,
            _ => false,
        }
    }

    /// What node `m` computes depends on its own kind, on the new values of
    /// its dependencies and on the values of the cells, nothing else.
    pub proof fn lemma_computed_frame(s1: &Self, s2: &Self, m: int)
        requires
            s1.graph_wf(),
            s1.len() == s2.len(),
            0 <= m < s1.len(),
            s1.nodes@[m].kind == s2.nodes@[m].kind,
            s1.nodes@[m].dependencies@ == s2.nodes@[m].dependencies@,
            Self::is_pure(s1.nodes@[m].kind),
            forall|k: int|
                0 <= k < s1.deps(m).len() ==> s1.nodes@[#[trigger] s1.deps(m)[k] as int].next
                    == s2.nodes@[s1.deps(m)[k] as int].next,
            forall|c: int| 0 <= c < s1.len() ==> (#[trigger] s1.nodes@[c]).value == s2.nodes@[c].value,
        ensures
            s1.computed_next(m) == s2.computed_next(m),
    {
        reveal(SodiumCtxData::computed_in);
        assert(s1.node_wf(m));
        let deps = s1.deps(m);
        match s1.nodes@[m].kind {
            Kind::Lift { f } => {
                assert(s1.all_next(deps) == s2.all_next(deps)) by {
                    assert forall|k: int| 0 <= k < deps.len() implies (#[trigger] s1.nodes@[deps[k] as int]).next
                        == s2.nodes@[deps[k] as int].next by {}
                }
                assert(s1.nexts(deps) =~= s2.nexts(deps)) by {
                    assert forall|k: int| 0 <= k < deps.len() implies s1.nexts(deps)[k] == s2.nexts(deps)[k] by {
                        assert(s1.nodes@[deps[k] as int].next == s2.nodes@[deps[k] as int].next);
                    }
                }
            },
            Kind::SnapshotWith { cells, f } => {
                assert(s1.nodes@[deps[0] as int].next == s2.nodes@[deps[0] as int].next);
                assert(s1.vals(cells@) =~= s2.vals(cells@)) by {
                    assert forall|k: int| 0 <= k < cells@.len() implies s1.vals(cells@)[k] == s2.vals(cells@)[k] by {
                        assert(Self::cell_in(s1.nodes@, cells@[k] as int));
                        assert(s1.nodes@[cells@[k] as int].value == s2.nodes@[cells@[k] as int].value);
                    }
                }
            },
            Kind::Snapshot { cell } => {
                assert(s1.nodes@[deps[0] as int].next == s2.nodes@[deps[0] as int].next);
                assert(s1.nodes@[cell as int].value == s2.nodes@[cell as int].value);
            },
            _ => {
                assert(s1.nodes@[deps[0] as int].next == s2.nodes@[deps[0] as int].next);
            },
        }
    }

    /// The bookkeeping of the update loop: the updates so far (`done`) and
    /// the queue left make up the queue at the start; ranks never went down
    /// and none left in the queue is below the last one updated.
    #[verifier::opaque]
    pub open spec fn queue_progress(start: &Self, q: Seq<usize>, done: Seq<usize>, lo: int) -> bool {
        &&& forall|a: int| 0 <= a < done.len() ==> #[trigger] done[a] < start.len()
        &&& done.to_multiset().add(q.to_multiset()) == start.to_be_updated@.to_multiset()
        &&& forall|a: int, b: int|
            0 <= a < b < done.len() ==> start.rank(#[trigger] done[a] as int) <= start.rank(
                #[trigger] done[b] as int,
            )
        &&& forall|a: int| 0 <= a < done.len() ==> start.rank(#[trigger] done[a] as int) <= lo
        &&& forall|k: int| 0 <= k < q.len() ==> lo <= start.rank(#[trigger] q[k] as int)
    }

    pub proof fn lemma_queue_step(start: &Self, q: Seq<usize>, q2: Seq<usize>, done: Seq<usize>, p: usize, lo: int)
        requires
            Self::queue_progress(start, q, done, lo),
            q.contains(p),
            q2.to_multiset() == q.to_multiset().remove(p),
            p < start.len(),
            forall|k: int| 0 <= k < q.len() ==> start.rank(p as int) <= start.rank(#[trigger] q[k] as int),
        ensures
            Self::queue_progress(start, q2, done.push(p), start.rank(p as int)),
    {
        reveal(SodiumCtxData::queue_progress);
        let nd = done.push(p);
        let k0 = choose|k: int| 0 <= k < q.len() && q[k] == p;
        assert(lo <= start.rank(q[k0] as int));
        assert forall|k: int| 0 <= k < q2.len() implies start.rank(p as int) <= start.rank(#[trigger] q2[k] as int) by {
            let x = q2[k];
            assert(q2.to_multiset().count(x) > 0);
            assert(q.to_multiset().count(x) > 0);
            assert(q.contains(x));
            let kk = choose|kk: int| 0 <= kk < q.len() && q[kk] == x;
        }
        assert forall|a: int, b: int| 0 <= a < b < nd.len() implies start.rank(#[trigger] nd[a] as int) <= start.rank(
            #[trigger] nd[b] as int) by {
            assert(nd[a] == done[a]);
            if b < done.len() {
                assert(nd[b] == done[b]);
            }
        }
        assert forall|a: int| 0 <= a < nd.len() implies start.rank(#[trigger] nd[a] as int) <= start.rank(p as int) by {
            if a < done.len() {
                assert(nd[a] == done[a]);
            }
        }
        assert forall|a: int| 0 <= a < nd.len() implies #[trigger] nd[a] < start.len() by {
            if a < done.len() {
                assert(nd[a] == done[a]);
            }
        }
        assert(nd.to_multiset() =~= done.to_multiset().insert(p));
        assert(nd.to_multiset().add(q2.to_multiset()) =~= start.to_be_updated@.to_multiset());
    }

    #[verifier::opaque]
    pub open spec fn progress_in(start: Seq<NodeData<V, F>>, nodes: Seq<NodeData<V, F>>, done: Seq<usize>) -> bool {
        forall|j: usize|
            j < start.len() ==> {
                &&& (#[trigger] nodes[j as int]).rank == start[j as int].rank
                &&& nodes[j as int].dependencies@ == start[j as int].dependencies@
                &&& nodes[j as int].dependents@ == start[j as int].dependents@
                &&& nodes[j as int].alive == start[j as int].alive
                &&& nodes[j as int].value == start[j as int].value
                &&& nodes[j as int].kind == start[j as int].kind
                &&& Self::passive(start[j as int].kind) ==> nodes[j as int].next == start[j as int].next
                &&& !done.contains(j) ==> nodes[j as int] == start[j as int]
                &&& (done.contains(j) && Self::is_pure(nodes[j as int].kind)) ==> opt_val(
                    nodes[j as int].next,
                ) == Self::computed_in(nodes, j as int)
            }
    }

    /// The updates so far (`done`) changed only the nodes they updated, and
    /// left every updated node of a pure kind with the value its inputs give.
    pub open spec fn progress(start: &Self, s: &Self, done: Seq<usize>) -> bool {
        Self::progress_in(start.nodes@, s.nodes@, done)
    }

    pub proof fn lemma_progress_step(start: &Self, mid: &Self, after: &Self, done: Seq<usize>, p: usize)
        requires
            mid.graph_wf(),
            mid.len() == start.len(),
            p < mid.len(),
            Self::updated(mid, after, p as int),
            Self::progress(start, mid, done),
            forall|a: int| 0 <= a < done.len() ==> mid.rank(#[trigger] done[a] as int) <= mid.rank(p as int),
        ensures
            Self::progress(start, after, done.push(p)),
    {
        reveal(SodiumCtxData::progress_in);
        let nd = done.push(p);
        assert forall|j: usize| j < start.len() implies {
            &&& (#[trigger] after.nodes@[j as int]).rank == start.nodes@[j as int].rank
            &&& after.nodes@[j as int].dependencies@ == start.nodes@[j as int].dependencies@
            &&& after.nodes@[j as int].dependents@ == start.nodes@[j as int].dependents@
            &&& after.nodes@[j as int].alive == start.nodes@[j as int].alive
            &&& after.nodes@[j as int].value == start.nodes@[j as int].value
            &&& after.nodes@[j as int].kind == start.nodes@[j as int].kind
            &&& Self::passive(start.nodes@[j as int].kind) ==> after.nodes@[j as int].next == start.nodes@[j as int].next
            &&& !nd.contains(j) ==> after.nodes@[j as int] == start.nodes@[j as int]
            &&& (nd.contains(j) && Self::is_pure(after.nodes@[j as int].kind)) ==> opt_val(
                after.nodes@[j as int].next,
            ) == Self::computed_in(after.nodes@, j as int)
        } by {
            let ji = j as int;
            assert(mid.nodes@[ji].rank == start.nodes@[ji].rank);
            if j != p {
                assert(after.nodes@[ji] == mid.nodes@[ji]);
                if !nd.contains(j) {
                    assert(!done.contains(j)) by {
                        if done.contains(j) {
                            let w = choose|w: int| 0 <= w < done.len() && done[w] == j;
                            assert(nd[w] == j);
                        }
                    }
                }
                if nd.contains(j) {
                    let w = choose|w: int| 0 <= w < nd.len() && nd[w] == j;
                    if w == done.len() {
                        assert(nd[w] == p);
                    }
                    assert(nd[w] == done[w]);
                    assert(done.contains(j));
                    if Self::is_pure(after.nodes@[ji].kind) {
                        assert(mid.node_wf(ji));
                        assert forall|k: int| 0 <= k < mid.deps(ji).len() implies mid.nodes@[#[trigger] mid.deps(ji)[k] as int].next
                            == after.nodes@[mid.deps(ji)[k] as int].next by {
                            let d = mid.deps(ji)[k] as int;
                            assert(mid.rank(d) < mid.rank(ji));
                            assert(mid.rank(done[w] as int) <= mid.rank(p as int));
                            if d == p as int {
                                assert(false);
                            }
                        }
                        Self::lemma_computed_frame(mid, after, ji);
                    }
                }
            } else {
                assert(nd[nd.len() - 1] == p);
                assert(nd.contains(j));
                if Self::passive(start.nodes@[ji].kind) {
                    reveal(SodiumCtxData::computed_in);
                    assert(Self::passive(mid.nodes@[ji].kind));
                    assert(mid.computed_next(ji) == mid.nx(ji));
                }
                if Self::is_pure(after.nodes@[ji].kind) {
                    assert(mid.node_wf(ji));
                    assert(after.nodes@[ji].kind == mid.nodes@[ji].kind);
                    assert forall|k: int| 0 <= k < mid.deps(ji).len() implies mid.nodes@[#[trigger] mid.deps(ji)[k] as int].next
                        == after.nodes@[mid.deps(ji)[k] as int].next by {
                        let d = mid.deps(ji)[k] as int;
                        assert(mid.rank(d) < mid.rank(ji));
                    }
                    Self::lemma_computed_frame(mid, after, ji);
                }
            }
        }
    }

    /// Takes off the queue a node of the lowest rank in it.
    fn pop_min(&mut self) -> (p: usize)
        requires
            old(self).graph_wf(),
            old(self).to_be_updated@.len() > 0,
        ensures
            old(self).to_be_updated@.contains(p),
            final(self).to_be_updated@.len() == old(self).to_be_updated@.len() - 1,
            final(self).to_be_updated@.to_multiset() == old(self).to_be_updated@.to_multiset().remove(p),
            forall|k: int|
                0 <= k < old(self).to_be_updated@.len() ==> old(self).rank(p as int) <= old(self).rank(
                    #[trigger] old(self).to_be_updated@[k] as int,
                ),
            Self::same_but_queue(old(self), final(self)),
            final(self).graph_wf(),
    {
        let ghost q = self.to_be_updated@;
        let mut best: usize = 0;
        let mut k: usize = 1;
        while k < self.to_be_updated.len()
            invariant
                q == self.to_be_updated@,
                self.graph_wf(),
                best < k <= q.len(),
                forall|j: int| 0 <= j < k ==> self.rank(q[best as int] as int) <= self.rank(#[trigger] q[j] as int),
            decreases q.len() - k,
        {
            let a = self.to_be_updated[k];
            let b = self.to_be_updated[best];
            if self.nodes[a].rank < self.nodes[b].rank {
                best = k;
            }
            k = k + 1;
        }
        let ghost before = *self;
        let p = self.to_be_updated.remove(best);
        proof {
            assert(q[best as int] == p);
            assert(q.contains(p));
            assert forall|k: int| 0 <= k < self.to_be_updated@.len() implies #[trigger] self.to_be_updated@[k] < self.len() by {
                if k < best {
                    assert(self.to_be_updated@[k] == q[k]);
                } else {
                    assert(self.to_be_updated@[k] == q[k + 1]);
                }
            }
            Self::lemma_same_graph_wf(&before, self);
        }
        p
    }

    /// Updates the queued nodes, lowest rank first, until the queue is empty.
    ///
    /// The ghost result is the order of the updates: each queued node once per
    /// time it was queued, in an order where the rank never goes down, so that
    /// each node is updated after every dependency of it that was queued.
    /// Every node updated whose kind depends on its inputs alone ends with the
    /// new value that its inputs' final new values give (no glitch).
    pub fn run_updates(&mut self) -> (order: Ghost<Seq<usize>>)
        requires
            old(self).graph_wf(),
        ensures
            final(self).graph_wf(),
            final(self).to_be_updated@.len() == 0,
            order@.to_multiset() == old(self).to_be_updated@.to_multiset(),
            forall|a: int, b: int|
                0 <= a < b < order@.len() ==> final(self).rank(#[trigger] order@[a] as int) <= final(self).rank(
                    #[trigger] order@[b] as int,
                ),
            final(self).len() == old(self).len(),
            Self::progress(old(self), final(self), old(self).to_be_updated@),
            final(self).events@ == old(self).events@ + Self::reports(final(self).nodes@, order@),
            Self::deref_pairs(final(self).deferred@) == Self::deref_pairs(old(self).deferred@) + Self::deferrals(
                final(self).nodes@,
                order@,
            ),
            final(self).transaction_depth == old(self).transaction_depth,
            final(self).pre_trans@ == old(self).pre_trans@,
    {
        let ghost start = *self;
        let ghost mut done: Seq<usize> = Seq::empty();
        let ghost mut lo: int = 0;
        proof {
            assert(done.to_multiset().add(self.to_be_updated@.to_multiset()) =~= start.to_be_updated@.to_multiset());
            reveal(SodiumCtxData::progress_in);
            reveal(SodiumCtxData::queue_progress);
            assert(Self::progress(&start, self, done));
            assert(Self::queue_progress(&start, self.to_be_updated@, done, lo));
            assert(self.events@ =~= start.events@ + Self::reports(self.nodes@, done));
            assert(Self::deref_pairs(self.deferred@) =~= Self::deref_pairs(start.deferred@) + Self::deferrals(
                self.nodes@, done));
        }
        while self.to_be_updated.len() > 0
            invariant
                self.graph_wf(),
                start.graph_wf(),
                self.len() == start.len(),
                Self::queue_progress(&start, self.to_be_updated@, done, lo),
                Self::progress(&start, self, done),
                self.events@ == start.events@ + Self::reports(self.nodes@, done),
                Self::deref_pairs(self.deferred@) == Self::deref_pairs(start.deferred@) + Self::deferrals(
                    self.nodes@,
                    done,
                ),
                self.transaction_depth == start.transaction_depth,
                self.pre_trans@ == start.pre_trans@,
            decreases self.to_be_updated@.len(),
        {
            let ghost q = self.to_be_updated@;
            let p = self.pop_min();
            let ghost mid = *self;
            self.update_node(p);
            proof {
                reveal(SodiumCtxData::progress_in);
                assert forall|k: int| 0 <= k < q.len() implies start.rank(p as int) <= start.rank(#[trigger] q[k] as int) by {
                    assert(mid.rank(p as int) <= mid.rank(q[k] as int));
                    assert(mid.nodes@[p as int].rank == start.nodes@[p as int].rank);
                    assert(mid.nodes@[q[k] as int].rank == start.nodes@[q[k] as int].rank);
                }
                Self::lemma_queue_step(&start, q, mid.to_be_updated@, done, p, lo);
                reveal(SodiumCtxData::queue_progress);
                assert forall|a: int| 0 <= a < done.len() implies mid.rank(#[trigger] done[a] as int) <= mid.rank(p as int) by {
                    assert(mid.nodes@[p as int].rank == start.nodes@[p as int].rank);
                    assert(mid.nodes@[done[a] as int].rank == start.nodes@[done[a] as int].rank);
                }
                Self::lemma_progress_step(&start, &mid, self, done, p);
                Self::lemma_updated_outputs(&mid, self, p);
                assert forall|k: int| 0 <= k < done.push(p).len() implies Self::report(mid.nodes@, #[trigger] done.push(p)[k])
                    == Self::report(self.nodes@, done.push(p)[k]) && Self::deferral(mid.nodes@, done.push(p)[k])
                    == Self::deferral(self.nodes@, done.push(p)[k]) by {
                    let l = done.push(p)[k];
                    if k < done.len() {
                        assert(l == done[k]);
                        assert(mid.rank(l as int) <= mid.rank(p as int));
                    }
                    Self::lemma_output_frame_one(&mid, self, p, l);
                }
                Self::lemma_outputs_frame(mid.nodes@, self.nodes@, done.push(p));
                assert(done.push(p).drop_last() =~= done);
                assert(Self::reports(mid.nodes@, done.push(p)) == Self::reports(mid.nodes@, done) + Self::report(mid.nodes@, p));
                assert(Self::deferrals(mid.nodes@, done.push(p)) == Self::deferrals(mid.nodes@, done) + Self::deferral(mid.nodes@, p));
                assert(self.events@ =~= start.events@ + Self::reports(self.nodes@, done.push(p)));
                assert(Self::deref_pairs(self.deferred@) =~= Self::deref_pairs(start.deferred@) + Self::deferrals(
                    self.nodes@, done.push(p)));
                done = done.push(p);
                lo = start.rank(p as int);
            }
        }
        proof {
            reveal(SodiumCtxData::progress_in);
            reveal(SodiumCtxData::queue_progress);
            assert(self.to_be_updated@.to_multiset() =~= Multiset::empty());
            assert(done.to_multiset() =~= start.to_be_updated@.to_multiset());
            assert forall|x: usize| (#[trigger] done.contains(x) <==> start.to_be_updated@.contains(x)) by {
                assert(done.contains(x) <==> done.to_multiset().count(x) > 0);
                assert(start.to_be_updated@.contains(x) <==> start.to_be_updated@.to_multiset().count(x) > 0);
            }
            assert(Self::progress(&start, self, start.to_be_updated@));
            assert forall|a: int, b: int|
                0 <= a < b < done.len() implies self.rank(#[trigger] done[a] as int) <= self.rank(#[trigger] done[b] as int) by {
                assert(self.nodes@[done[a] as int].rank == start.nodes@[done[a] as int].rank);
                assert(self.nodes@[done[b] as int].rank == start.nodes@[done[b] as int].rank);
            }
        }
        Ghost(done)
    }
}

} // verus!
