use vstd::prelude::*;
use std::rc::Rc;

use crate::cell::Cell;
use crate::cell_sink::CellSink;
use crate::lambda::{IsLambda, deref_all, opt_val};
use crate::node::{Kind, NodeData};
use crate::stream::Stream;
use crate::stream_sink::StreamSink;

verus! {

/// Work queued to run at the start of the next propagation.
pub enum PreTrans<V> {
    /// Report the cell's value at that moment to the listener.
    Sample { listener: usize, cell: usize },
    /// Report this value to the listener.
    Emit { listener: usize, value: Rc<V> },
}

/// The state of a reactive graph and of the transaction under way.
pub struct SodiumCtxData<V, F> {
    pub nodes: Vec<NodeData<V, F>>,
    pub transaction_depth: usize,
    /// The nodes marked dirty, to update when the transaction ends.
    pub to_be_updated: Vec<usize>,
    pub pre_trans: Vec<PreTrans<V>>,
    /// Values to fire later, each in a transaction of its own: node and value.
    pub deferred: Vec<(usize, Rc<V>)>,
    /// What the listeners were told, in order: listener node and value.
    pub events: Vec<(usize, Rc<V>)>,
}

/// A reactive context: the graph of cells and streams and its transactions.
pub struct SodiumCtx<V, F> {
    pub data: SodiumCtxData<V, F>,
}

impl<V, F> SodiumCtxData<V, F> {
    pub open spec fn len(&self) -> int {
        self.nodes@.len() as int
    }

    pub open spec fn rank(&self, i: int) -> int {
        self.nodes@[i].rank as int
    }

    pub open spec fn deps(&self, i: int) -> Seq<usize> {
        self.nodes@[i].dependencies@
    }

    pub open spec fn dependents(&self, i: int) -> Seq<usize> {
        self.nodes@[i].dependents@
    }

    pub open spec fn is_cell(&self, i: int) -> bool {
        Self::cell_in(self.nodes@, i)
    }

    /// Node `i` is a stream: it holds no value and reports to no listener.
    pub open spec fn is_stream(&self, i: int) -> bool {
        &&& 0 <= i < self.len()
        &&& self.nodes@[i].value is None
        &&& !(self.nodes@[i].kind is CellListener)
        &&& !(self.nodes@[i].kind is StreamListener)
    }

    /// The value that the cell `i` holds.
    pub open spec fn val(&self, i: int) -> V {
        *self.nodes@[i].value.unwrap()
    }

    /// The value that node `i` has in the transaction under way, if any.
    pub open spec fn nx(&self, i: int) -> Option<V> {
        opt_val(self.nodes@[i].next)
    }

    /// Node `i` of `nodes` is a cell.
    pub open spec fn cell_in(nodes: Seq<NodeData<V, F>>, i: int) -> bool {
        0 <= i < nodes.len() && nodes[i].value is Some
    }

    /// The shape that the kind of a node asks of its dependencies.
    pub open spec fn kind_ok(nodes: Seq<NodeData<V, F>>, kind: Kind<F>, deps: Seq<usize>) -> bool {
        match kind {
            Kind::Never | Kind::Sink | Kind::Constant => deps.len() == 0,
            Kind::Lift { .. } => deps.len() >= 1 && forall|k: int|
                0 <= k < deps.len() ==> Self::cell_in(nodes, #[trigger] deps[k] as int),
            Kind::Snapshot { cell } => deps.len() == 1 && Self::cell_in(nodes, cell as int),
            Kind::SnapshotWith { cells, .. } => deps.len() == 1 && forall|k: int|
                0 <= k < cells@.len() ==> Self::cell_in(nodes, #[trigger] cells@[k] as int),
            Kind::CellListener => deps.len() == 1 && Self::cell_in(nodes, deps[0] as int),
            _ => deps.len() == 1,
        }
    }

    /// The invariant of one node: its dependencies come before it and rank
    /// below it, and the dependents lists agree with the dependencies lists.
    pub open spec fn node_ok(nodes: Seq<NodeData<V, F>>, i: int) -> bool {
        let deps = nodes[i].dependencies@;
        let dependents = nodes[i].dependents@;
        &&& nodes[i].rank <= i
        &&& forall|k: int| 0 <= k < deps.len() ==> #[trigger] deps[k] < i
        &&& forall|k: int| 0 <= k < deps.len() ==> nodes[#[trigger] deps[k] as int].rank < nodes[i].rank
        &&& forall|k: int|
            0 <= k < dependents.len() ==> {
                &&& #[trigger] dependents[k] < nodes.len()
                &&& nodes[dependents[k] as int].dependencies@.contains(i as usize)
            }
        &&& nodes[i].alive ==> forall|k: int|
            0 <= k < deps.len() ==> nodes[#[trigger] deps[k] as int].dependents@.contains(i as usize)
        &&& Self::kind_ok(nodes, nodes[i].kind, deps)
    }

    pub open spec fn kind_wf(&self, kind: Kind<F>, deps: Seq<usize>) -> bool {
        Self::kind_ok(self.nodes@, kind, deps)
    }

    pub open spec fn node_wf(&self, i: int) -> bool {
        Self::node_ok(self.nodes@, i)
    }

    pub open spec fn pre_wf(&self, p: PreTrans<V>) -> bool {
        match p {
            PreTrans::Sample { listener, cell } => listener < self.len() && self.is_cell(
                cell as int,
            ),
            PreTrans::Emit { listener, .. } => listener < self.len(),
        }
    }

    /// The kinds of node that fire values in later transactions.
    pub open spec fn defers(kind: Kind<F>) -> bool {
        kind is Split || kind is Defer
    }

    /// The invariant of the graph and of its queues, which holds at all times.
    pub open spec fn graph_wf(&self) -> bool {
        &&& forall|i: int| 0 <= i < self.len() ==> #[trigger] self.node_wf(i)
        &&& forall|k: int|
            0 <= k < self.to_be_updated@.len() ==> #[trigger] self.to_be_updated@[k] < self.len()
        &&& forall|k: int|
            0 <= k < self.deferred@.len() ==> (#[trigger] self.deferred@[k]).0 < self.len()
                && Self::defers(self.nodes@[self.deferred@[k].0 as int].kind)
        &&& forall|k: int| 0 <= k < self.pre_trans@.len() ==> self.pre_wf(#[trigger] self.pre_trans@[k])
    }

    /// Outside a transaction nothing is dirty and no node has a new value.
    pub open spec fn quiet(&self) -> bool {
        &&& self.to_be_updated@.len() == 0
        &&& forall|i: int| 0 <= i < self.len() ==> (#[trigger] self.nodes@[i]).next is None
    }

    /// Between transactions no node has a new value and no firing is left
    /// for later (nodes may be queued, by `Node::mark_dirty`, for the next
    /// transaction to update).
    pub open spec fn at_rest(&self) -> bool {
        &&& forall|i: int| 0 <= i < self.len() ==> (#[trigger] self.nodes@[i]).next is None
        &&& self.deferred@.len() == 0
    }

    /// The invariant of a context: the graph's, and outside a transaction
    /// no new value and no firing left for later.
    pub open spec fn wf(&self) -> bool {
        &&& self.graph_wf()
        &&& self.transaction_depth == 0 ==> self.at_rest()
    }
}

impl<V, F> SodiumCtxData<V, F> {
    /// The rank that a node with these dependencies gets: one more than the
    /// highest rank among them, or 0 when there are none.
    pub open spec fn rank_for(&self, deps: Seq<usize>) -> int
        decreases deps.len(),
    {
        if deps.len() == 0 {
            0
        } else {
            let r = self.rank_for(deps.drop_last());
            let d = self.rank(deps.last() as int) + 1;
            if r < d {
                d
            } else {
                r
            }
        }
    }

    pub proof fn lemma_rank_for_bounds(&self, deps: Seq<usize>, bound: int)
        requires
            forall|k: int| 0 <= k < deps.len() ==> self.rank(#[trigger] deps[k] as int) < bound,
            0 <= bound,
        ensures
            forall|k: int| 0 <= k < deps.len() ==> self.rank(#[trigger] deps[k] as int) < self.rank_for(deps),
            0 <= self.rank_for(deps) <= bound,
        decreases deps.len(),
    {
        if deps.len() > 0 {
            let dl = deps.drop_last();
            assert forall|k: int| 0 <= k < dl.len() implies self.rank(#[trigger] dl[k] as int) < bound by {
                assert(dl[k] == deps[k]);
            }
            self.lemma_rank_for_bounds(dl, bound);
            assert forall|k: int| 0 <= k < deps.len() implies self.rank(#[trigger] deps[k] as int) < self.rank_for(deps) by {
                if k < deps.len() - 1 {
                    assert(dl[k] == deps[k]);
                }
            }
        }
    }

    /// Node `j` of `b` is node `j` of `a`, but for the dependents list.
    pub open spec fn same_but_dependents(a: NodeData<V, F>, b: NodeData<V, F>) -> bool {
        &&& a.rank == b.rank
        &&& a.kind == b.kind
        &&& a.dependencies@ == b.dependencies@
        &&& a.alive == b.alive
        &&& a.value == b.value
        &&& a.next == b.next
    }

    /// How many times `x` occurs in `s`.
    pub open spec fn occurrences(s: Seq<usize>, x: usize) -> nat
        decreases s.len(),
    {
        if s.len() == 0 {
            0
        } else {
            Self::occurrences(s.drop_last(), x) + if s.last() == x {
                1nat
            } else {
                0nat
            }
        }
    }

    /// `b` is the list `a` with `id` appended some number of times.
    pub open spec fn extended_with(a: Seq<usize>, b: Seq<usize>, id: usize) -> bool {
        &&& a.len() <= b.len()
        &&& b.subrange(0, a.len() as int) == a
        &&& forall|k: int| a.len() <= k < b.len() ==> b[k] == id
    }

    /// What a node added to `a` joins the queue with: itself when a
    /// transaction is open or one of its dependencies is queued, so that it
    /// is updated with them; nothing otherwise. A cell's listener never
    /// joins: its first report is queued work of its own (`PreTrans::Sample`).
    pub open spec fn joining(a: &Self, kind: Kind<F>, deps: Seq<usize>) -> Seq<usize> {
        if !(kind is CellListener) && (a.transaction_depth > 0 || exists|k: int|
            0 <= k < deps.len() && a.to_be_updated@.contains(#[trigger] deps[k])) {
            seq![a.len() as usize]
        } else {
            Seq::empty()
        }
    }

    /// `b` is `a` with one node added, of kind `kind`, depending on `deps` and
    /// holding `value` (a cell) or nothing (a stream), and queued as
    /// `joining` says: see `added_shape`.
    pub open spec fn added_but_pre(a: &Self, b: &Self, kind: Kind<F>, deps: Seq<usize>, value: Option<Rc<V>>) -> bool {
        &&& Self::added_shape(a, b, kind, deps, value)
        &&& b.to_be_updated@ == a.to_be_updated@ + Self::joining(a, kind, deps)
    }

    /// `b` is `a` with one node added, of kind `kind`, depending on `deps` and
    /// holding `value` (a cell) or nothing (a stream): its rank is the one
    /// that `rank_for` gives, it is registered as a dependent of each of its
    /// dependencies, and no other node, list or depth changes (the queue is
    /// left to the caller).
    pub open spec fn added_shape(a: &Self, b: &Self, kind: Kind<F>, deps: Seq<usize>, value: Option<Rc<V>>) -> bool {
        let id = a.len();
        &&& b.len() == a.len() + 1
        &&& b.rank(id) == a.rank_for(deps)
        &&& b.nodes@[id].kind == kind
        &&& b.deps(id) == deps
        &&& b.dependents(id).len() == 0
        &&& b.nodes@[id].alive
        &&& b.nodes@[id].value == value
        &&& b.nodes@[id].next is None
        &&& forall|j: int|
            0 <= j < a.len() ==> {
                &&& Self::same_but_dependents(a.nodes@[j], #[trigger] b.nodes@[j])
                &&& Self::extended_with(a.dependents(j), b.dependents(j), id as usize)
                &&& b.dependents(j).len() == a.dependents(j).len() + Self::occurrences(deps, j as usize)
                &&& (deps.contains(j as usize) <==> b.dependents(j).contains(id as usize))
            }
        &&& b.transaction_depth == a.transaction_depth
        &&& b.deferred@ == a.deferred@
        &&& b.events@ == a.events@
    }

    /// Whether one of `deps` is queued.
    pub fn queued_any(&self, deps: &Vec<usize>) -> (r: bool)
        ensures
            r == exists|k: int| 0 <= k < deps@.len() && self.to_be_updated@.contains(#[trigger] deps@[k]),
    {
        let mut k: usize = 0;
        while k < deps.len()
            invariant
                k <= deps@.len(),
                forall|j: int| 0 <= j < k ==> !self.to_be_updated@.contains(#[trigger] deps@[j]),
            decreases deps@.len() - k,
        {
            let d = deps[k];
            let mut q: usize = 0;
            while q < self.to_be_updated.len()
                invariant
                    k < deps@.len(),
                    d == deps@[k as int],
                    q <= self.to_be_updated@.len(),
                    forall|j: int| 0 <= j < q ==> self.to_be_updated@[j] != d,
                decreases self.to_be_updated@.len() - q,
            {
                if self.to_be_updated[q] == d {
                    proof {
                        assert(self.to_be_updated@[q as int] == deps@[k as int]);
                        assert(self.to_be_updated@.contains(deps@[k as int]));
                    }
                    return true;
                }
                q = q + 1;
            }
            proof {
                assert(!self.to_be_updated@.contains(deps@[k as int])) by {
                    if self.to_be_updated@.contains(d) {
                        let w = choose|w: int| 0 <= w < self.to_be_updated@.len() && self.to_be_updated@[w] == d;
                    }
                }
            }
            k = k + 1;
        }
        false
    }

    /// `b` is `a` with one node added as `added_shape` says, and not queued.
    pub open spec fn added_alone(a: &Self, b: &Self, kind: Kind<F>, deps: Seq<usize>, value: Option<Rc<V>>) -> bool {
        &&& Self::added_shape(a, b, kind, deps, value)
        &&& b.to_be_updated@ == a.to_be_updated@
        &&& b.pre_trans@ == a.pre_trans@
    }

    pub open spec fn added(a: &Self, b: &Self, kind: Kind<F>, deps: Seq<usize>, value: Option<Rc<V>>) -> bool {
        &&& Self::added_but_pre(a, b, kind, deps, value)
        &&& b.pre_trans@ == a.pre_trans@
    }

    /// Adds a node that depends on `dependencies`, registers it as a
    /// dependent of each of them, and returns its index.
    pub fn add_node(&mut self, kind: Kind<F>, dependencies: Vec<usize>, value: Option<Rc<V>>) -> (id: usize)
        requires
            old(self).graph_wf(),
            forall|k: int| 0 <= k < dependencies@.len() ==> #[trigger] dependencies@[k] < old(self).len(),
            old(self).kind_wf(kind, dependencies@),
        ensures
            id == old(self).len(),
            final(self).graph_wf(),
            final(self).len() == old(self).len() + 1,
            final(self).rank(id as int) == old(self).rank_for(dependencies@),
            final(self).nodes@[id as int].kind == kind,
            final(self).deps(id as int) == dependencies@,
            final(self).dependents(id as int).len() == 0,
            final(self).nodes@[id as int].alive,
            final(self).nodes@[id as int].value == value,
            final(self).nodes@[id as int].next is None,
            forall|j: int| 0 <= j < old(self).len() ==> {
                &&& Self::same_but_dependents(old(self).nodes@[j], #[trigger] final(self).nodes@[j])
                &&& Self::extended_with(old(self).dependents(j), final(self).dependents(j), id)
                &&& final(self).dependents(j).len() == old(self).dependents(j).len() + Self::occurrences(dependencies@, j as usize)
                &&& (dependencies@.contains(j as usize) <==> final(self).dependents(j).contains(id))
            },
            final(self).transaction_depth == old(self).transaction_depth,
            final(self).to_be_updated == old(self).to_be_updated,
            final(self).pre_trans == old(self).pre_trans,
            final(self).deferred == old(self).deferred,
            final(self).events == old(self).events,
    {
        let id = self.nodes.len();
        let ghost deps = dependencies@;
        proof {
            assert forall|k: int| 0 <= k < deps.len() implies self.rank(#[trigger] deps[k] as int) < id as int by {
                assert(self.node_wf(deps[k] as int));
            }
            self.lemma_rank_for_bounds(deps, id as int);
        }
        let mut rank: usize = 0;
        let mut k: usize = 0;
        while k < dependencies.len()
            invariant
                k <= dependencies@.len(),
                deps == dependencies@,
                id == self.len(),
                self.graph_wf(),
                forall|k: int| 0 <= k < deps.len() ==> #[trigger] deps[k] < id,
                rank == self.rank_for(deps.take(k as int)),
            decreases dependencies@.len() - k,
        {
            let d = dependencies[k];
            proof {
                assert(deps[k as int] == d);
                assert(self.node_wf(d as int));
                assert(deps.take(k + 1).drop_last() =~= deps.take(k as int));
                assert(deps.take(k + 1).last() == d);
            }
            let r = self.nodes[d].rank;
            if rank <= r {
                rank = r + 1;
            }
            k = k + 1;
        }
        proof {
            assert(deps.take(deps.len() as int) =~= deps);
        }
        let ghost old_self = *self;
        proof {
            assert forall|j: int| 0 <= j < id implies !(#[trigger] self.dependents(j)).contains(id) by {
                assert(self.node_wf(j));
                if self.dependents(j).contains(id) {
                    let w = choose|w: int| 0 <= w < self.dependents(j).len() && self.dependents(j)[w] == id;
                    assert(self.dependents(j)[w] < self.len());
                }
            }
            assert forall|j: int| 0 <= j < id implies
                self.dependents(j).subrange(0, self.dependents(j).len() as int) == #[trigger] self.dependents(j) by {
                assert(self.dependents(j).subrange(0, self.dependents(j).len() as int) =~= self.dependents(j));
            }
            assert(deps.take(0) =~= Seq::<usize>::empty());
        }
        let mut k: usize = 0;
        while k < dependencies.len()
            invariant
                k <= dependencies@.len(),
                deps == dependencies@,
                id == self.len(),
                id == old_self.len(),
                old_self.graph_wf(),
                forall|k: int| 0 <= k < deps.len() ==> #[trigger] deps[k] < id,
                self.transaction_depth == old_self.transaction_depth,
                self.to_be_updated == old_self.to_be_updated,
                self.pre_trans == old_self.pre_trans,
                self.deferred == old_self.deferred,
                self.events == old_self.events,
                forall|j: int| 0 <= j < id ==> {
                    &&& Self::same_but_dependents(old_self.nodes@[j], #[trigger] self.nodes@[j])
                    &&& Self::extended_with(old_self.dependents(j), self.dependents(j), id)
                    &&& self.dependents(j).len() == old_self.dependents(j).len() + Self::occurrences(deps.take(k as int), j as usize)
                    &&& (deps.take(k as int).contains(j as usize) <==> self.dependents(j).contains(id))
                },
            decreases dependencies@.len() - k,
        {
            let d = dependencies[k];
            let ghost before = *self;
            self.nodes[d].dependents.push(id);
            proof {
                assert(deps[k as int] == d);
                assert forall|j: int| 0 <= j < id implies {
                    &&& Self::same_but_dependents(old_self.nodes@[j], #[trigger] self.nodes@[j])
                    &&& Self::extended_with(old_self.dependents(j), self.dependents(j), id)
                    &&& self.dependents(j).len() == old_self.dependents(j).len() + Self::occurrences(deps.take(k + 1), j as usize)
                    &&& (deps.take(k + 1).contains(j as usize) <==> self.dependents(j).contains(id))
                } by {
                    assert(deps.take(k + 1) =~= deps.take(k as int).push(d));
                    assert(deps.take(k + 1).drop_last() =~= deps.take(k as int));
                    assert(deps.take(k + 1).last() == d);
                    if j == d as int {
                        assert(self.dependents(j) =~= before.dependents(j).push(id));
                        assert(self.dependents(j).last() == id);
                        assert(self.dependents(j).subrange(0, old_self.dependents(j).len() as int)
                            =~= before.dependents(j).subrange(0, old_self.dependents(j).len() as int));
                        assert(Self::same_but_dependents(old_self.nodes@[j], self.nodes@[j]));
                        assert(deps.take(k + 1)[k as int] == d);
                        assert(deps.take(k + 1).contains(d));
                        assert(self.dependents(j).contains(id));
                        assert(Self::extended_with(old_self.dependents(j), self.dependents(j), id));
                    } else {
                        assert(deps.take(k + 1).contains(j as usize) ==> deps.take(k as int).contains(j as usize)) by {
                            if deps.take(k + 1).contains(j as usize) {
                                let w = choose|w: int| 0 <= w < k + 1 && #[trigger] deps.take(k + 1)[w] == j as usize;
                                assert(w < k);
                                assert(deps.take(k as int)[w] == j as usize);
                            }
                        }
                        assert(deps.take(k as int).contains(j as usize) ==> deps.take(k + 1).contains(j as usize)) by {
                            if deps.take(k as int).contains(j as usize) {
                                let w = choose|w: int| 0 <= w < k && #[trigger] deps.take(k as int)[w] == j as usize;
                                assert(deps.take(k + 1)[w] == j as usize);
                            }
                        }
                        assert(self.nodes@[j] == before.nodes@[j]);
                    }
                }
            }
            k = k + 1;
        }
        let node = NodeData {
            rank,
            kind,
            dependencies,
            dependents: Vec::new(),
            alive: true,
            value,
            next: None,
        };
        let ghost mid = *self;
        self.nodes.push(node);
        proof {
            assert(deps.take(deps.len() as int) =~= deps);
            assert forall|i: int| 0 <= i < self.len() implies #[trigger] self.node_wf(i) by {
                if i < id {
                    assert(old_self.node_wf(i));
                    assert(self.nodes@[i] == mid.nodes@[i]);
                    let ext = self.dependents(i);
                    let od = old_self.dependents(i);
                    assert forall|k2: int| 0 <= k2 < ext.len() implies {
                        &&& #[trigger] ext[k2] < self.len()
                        &&& self.deps(ext[k2] as int).contains(i as usize)
                    } by {
                        if k2 < od.len() {
                            assert(ext.subrange(0, od.len() as int)[k2] == od[k2]);
                            assert(od[k2] < old_self.len());
                            assert(old_self.deps(od[k2] as int).contains(i as usize));
                            assert(self.nodes@[od[k2] as int] == mid.nodes@[od[k2] as int]);
                        } else {
                            assert(ext[k2] == id);
                            assert(ext.contains(id));
                        }
                    }
                    if self.nodes@[i].alive {
                        assert forall|k2: int| 0 <= k2 < self.deps(i).len() implies
                            self.dependents(#[trigger] self.deps(i)[k2] as int).contains(i as usize) by {
                            let dd = self.deps(i)[k2] as int;
                            assert(old_self.dependents(dd).contains(i as usize));
                            let w = choose|w: int| 0 <= w < old_self.dependents(dd).len()
                                && old_self.dependents(dd)[w] == i as usize;
                            assert(self.dependents(dd).subrange(0, old_self.dependents(dd).len() as int)[w]
                                == i as usize);
                            assert(self.dependents(dd)[w] == i as usize);
                        }
                    }
                    assert(self.kind_wf(self.nodes@[i].kind, self.deps(i)) ==
                        old_self.kind_wf(old_self.nodes@[i].kind, old_self.deps(i)));
                } else {
                    assert(i == id);
                    assert forall|k2: int| 0 <= k2 < deps.len() implies
                        self.dependents(#[trigger] deps[k2] as int).contains(i as usize) by {
                        assert(deps.contains(deps[k2]));
                    }
                    assert(self.kind_wf(kind, deps) == old_self.kind_wf(kind, deps));
                }
            }
        }
        id
    }
}

impl<V, F> SodiumCtxData<V, F> {
    /// `a` and `b` have the same graph: the same nodes, with the same ranks,
    /// edges and liveness, and the same cells.
    pub open spec fn same_graph(a: &Self, b: &Self) -> bool {
        &&& a.len() == b.len()
        &&& forall|j: int|
            0 <= j < a.len() ==> {
                &&& (#[trigger] b.nodes@[j]).rank == a.nodes@[j].rank
                &&& b.nodes@[j].dependencies@ == a.nodes@[j].dependencies@
                &&& b.nodes@[j].dependents@ == a.nodes@[j].dependents@
                &&& b.nodes@[j].alive == a.nodes@[j].alive
                &&& b.nodes@[j].value is Some <==> a.nodes@[j].value is Some
                &&& b.nodes@[j].kind == a.nodes@[j].kind
            }
    }

    /// A graph with the same shape as a well-formed one has well-formed
    /// nodes too.
    pub proof fn lemma_same_graph_wf(a: &Self, b: &Self)
        requires
            Self::same_graph(a, b),
            forall|i: int| 0 <= i < a.len() ==> #[trigger] a.node_wf(i),
        ensures
            forall|i: int| 0 <= i < b.len() ==> #[trigger] b.node_wf(i),
    {
        assert forall|i: int| 0 <= i < b.len() implies #[trigger] b.node_wf(i) by {
            assert(a.node_wf(i));
            assert forall|c: int| 0 <= c < b.len() implies (Self::cell_in(b.nodes@, c) == Self::cell_in(a.nodes@, c)) by {}
        }
    }

    /// `b` is `a` with the new value of node `id` set to `r`.
    pub open spec fn next_set(a: &Self, b: &Self, id: usize, r: Option<Rc<V>>) -> bool {
        &&& b.len() == a.len()
        &&& forall|j: int| 0 <= j < a.len() && j != id ==> #[trigger] b.nodes@[j] == a.nodes@[j]
        &&& Self::same_but_dependents(
            NodeData { next: r, ..a.nodes@[id as int] },
            b.nodes@[id as int],
        )
        &&& b.dependents(id as int) == a.dependents(id as int)
        &&& b.transaction_depth == a.transaction_depth
        &&& b.to_be_updated@ == a.to_be_updated@
        &&& b.pre_trans@ == a.pre_trans@
        &&& b.deferred@ == a.deferred@
        &&& b.events@ == a.events@
    }

    /// Sets the new value of node `id` to `r`, within the transaction under
    /// way, without marking anything dirty.
    pub(crate) fn set_next(&mut self, id: usize, r: Option<Rc<V>>)
        requires
            old(self).graph_wf(),
            id < old(self).len(),
        ensures
            final(self).graph_wf(),
            Self::next_set(old(self), final(self), id, r),
    {
        let ghost s0 = *self;
        self.nodes[id].next = r;
        proof {
            Self::lemma_same_graph_wf(&s0, self);
        }
    }
}

impl<V, F> SodiumCtx<V, F> {
    pub open spec fn wf(&self) -> bool {
        self.data.wf()
    }

    /// How many transactions are open.
    pub open spec fn depth(&self) -> int {
        self.data.transaction_depth as int
    }
}

impl<V, F: IsLambda<V>> SodiumCtx<V, F> {
    /// A context with no node, outside any transaction.
    pub fn new() -> (ctx: Self)
        ensures
            ctx.wf(),
            ctx.data.len() == 0,
            ctx.depth() == 0,
            ctx.data.pre_trans@.len() == 0,
            ctx.data.deferred@.len() == 0,
            ctx.data.events@.len() == 0,
    {
        SodiumCtx {
            data: SodiumCtxData {
                nodes: Vec::new(),
                transaction_depth: 0,
                to_be_updated: Vec::new(),
                pre_trans: Vec::new(),
                deferred: Vec::new(),
                events: Vec::new(),
            },
        }
    }

    /// Opens a transaction, inside any that is open already.
    pub fn start_transaction(&mut self)
        requires
            old(self).wf(),
            old(self).depth() < usize::MAX,
        ensures
            final(self).wf(),
            SodiumCtxData::only_depth(&old(self).data, &final(self).data, old(self).depth() + 1),
    {
        self.data.transaction_depth = self.data.transaction_depth + 1;
        proof {
            SodiumCtxData::lemma_same_graph_wf(&old(self).data, &self.data);
        }
    }

    /// Closes the innermost transaction; closing the outermost one propagates
    /// what happened in it.
    pub fn end_transaction(&mut self)
        requires
            old(self).wf(),
            old(self).depth() > 0,
        ensures
            final(self).wf(),
            SodiumCtxData::ended(&old(self).data, &final(self).data),
    {
        let ghost start = self.data;
        self.data.transaction_depth = self.data.transaction_depth - 1;
        proof {
            SodiumCtxData::lemma_same_graph_wf(&start, &self.data);
        }
        if self.data.transaction_depth == 0 {
            let ghost mid = self.data;
            self.data.propagate();
            proof {
                assert(SodiumCtxData::same_graph(&start, &mid)) by {
                    assert forall|j: int| 0 <= j < start.len() implies {
                        &&& (#[trigger] mid.nodes@[j]).rank == start.nodes@[j].rank
                        &&& mid.nodes@[j].dependencies@ == start.nodes@[j].dependencies@
                        &&& mid.nodes@[j].dependents@ == start.nodes@[j].dependents@
                        &&& mid.nodes@[j].alive == start.nodes@[j].alive
                        &&& mid.nodes@[j].value is Some <==> start.nodes@[j].value is Some
                        &&& mid.nodes@[j].kind == start.nodes@[j].kind
                    } by {}
                }
                SodiumCtxData::lemma_same_graph_trans(&start, &mid, &self.data);
                SodiumCtxData::lemma_propagated_depth(&mid, &start, &self.data);
            }
        }
    }

    /// Runs `code` inside a transaction: what it does propagates when the
    /// outermost transaction ends. `code` is handed the context as
    /// `start_transaction` leaves it, and what it leaves is closed as
    /// `end_transaction` closes it; its result is returned.
    pub fn transaction<A, CODE: FnOnce(&mut SodiumCtx<V, F>) -> A>(&mut self, code: CODE) -> (r: A)
        requires
            old(self).wf(),
            old(self).depth() < usize::MAX,
            forall|c: &mut SodiumCtx<V, F>|
                (*c).wf() && SodiumCtxData::only_depth(&old(self).data, &(*c).data, old(self).depth() + 1)
                    ==> #[trigger] code.requires((c,)),
            forall|c: &mut SodiumCtx<V, F>, r: A|
                #[trigger] code.ensures((c,), r) && (*c).wf() && SodiumCtxData::only_depth(
                    &old(self).data,
                    &(*c).data,
                    old(self).depth() + 1,
                ) ==> final(c).wf() && final(c).depth() == (*c).depth(),
        ensures
            final(self).wf(),
            final(self).depth() == old(self).depth(),
            exists|c: &mut SodiumCtx<V, F>|
                #[trigger] code.ensures((c,), r) && SodiumCtxData::only_depth(
                    &old(self).data,
                    &(*c).data,
                    old(self).depth() + 1,
                ) && SodiumCtxData::ended(&final(c).data, &final(self).data),
    {
        self.start_transaction();
        let r = code(self);
        self.end_transaction();
        r
    }

    /// Hands out what the listeners were told since the last call, in order:
    /// listener node and value.
    pub fn take_events(&mut self) -> (events: Vec<(usize, Rc<V>)>)
        requires
            old(self).wf(),
        ensures
            final(self).wf(),
            events@ == old(self).data.events@,
            final(self).data.events@.len() == 0,
            final(self).data.nodes@ == old(self).data.nodes@,
            final(self).data.to_be_updated@ == old(self).data.to_be_updated@,
            final(self).data.pre_trans@ == old(self).data.pre_trans@,
            final(self).data.deferred@ == old(self).data.deferred@,
            final(self).depth() == old(self).depth(),
    {
        let mut events: Vec<(usize, Rc<V>)> = Vec::new();
        std::mem::swap(&mut events, &mut self.data.events);
        proof {
            SodiumCtxData::lemma_same_graph_wf(&old(self).data, &self.data);
        }
        events
    }

    /// Queues work to run at the start of the next propagation.
    pub fn pre_trans(&mut self, work: PreTrans<V>)
        requires
            old(self).wf(),
            old(self).data.pre_wf(work),
        ensures
            final(self).wf(),
            final(self).data.pre_trans@ == old(self).data.pre_trans@.push(work),
            final(self).data.nodes@ == old(self).data.nodes@,
            final(self).data.to_be_updated@ == old(self).data.to_be_updated@,
            final(self).data.deferred@ == old(self).data.deferred@,
            final(self).data.events@ == old(self).data.events@,
            final(self).depth() == old(self).depth(),
    {
        self.data.pre_trans.push(work);
        proof {
            SodiumCtxData::lemma_same_graph_wf(&old(self).data, &self.data);
            assert forall|k: int| 0 <= k < self.data.pre_trans@.len() implies self.data.pre_wf(#[trigger] self.data.pre_trans@[k]) by {
                if k < old(self).data.pre_trans@.len() {
                    assert(old(self).data.pre_wf(old(self).data.pre_trans@[k]));
                }
            }
        }
    }

    /// A cell that always holds `value`.
    pub fn new_cell(&mut self, value: V) -> (c: Cell)
        requires
            old(self).wf(),
        ensures
            final(self).wf(),
            c.node.id == old(self).data.len(),
            c.valid(final(self)),
            c.value(final(self)) == value,
            SodiumCtx::made(old(self), final(self), Kind::Constant, seq![]),
    {
        Cell::new(self, value)
    }

    /// A stream that never fires.
    pub fn new_stream(&mut self) -> (s: Stream)
        requires
            old(self).wf(),
        ensures
            final(self).wf(),
            s.node.id == old(self).data.len(),
            s.valid(final(self)),
            SodiumCtxData::added(&old(self).data, &final(self).data, Kind::Never, seq![], None),
    {
        Stream::new(self)
    }

    /// A sink cell that holds `value` until a send changes it.
    pub fn new_cell_sink(&mut self, value: V) -> (c: CellSink)
        requires
            old(self).wf(),
        ensures
            final(self).wf(),
            c.node.id == old(self).data.len(),
            c.valid(final(self)),
            c.to_cell().value(final(self)) == value,
            SodiumCtx::made(old(self), final(self), Kind::Sink, seq![]),
    {
        CellSink::new(self, value)
    }

    /// A sink stream.
    pub fn new_stream_sink(&mut self) -> (s: StreamSink)
        requires
            old(self).wf(),
        ensures
            final(self).wf(),
            s.node.id == old(self).data.len(),
            s.valid(final(self)),
            SodiumCtxData::added(&old(self).data, &final(self).data, Kind::Sink, seq![], None),
    {
        StreamSink::new(self)
    }
}

} // verus!
