use vstd::prelude::*;
use std::rc::Rc;

use crate::lambda::IsLambda;
use crate::sodium_ctx::{SodiumCtx, SodiumCtxData};

verus! {

/// What a node computes when it is updated. Every node reads its first
/// dependency as its input, except `Lift`, which reads all of them.
pub enum Kind<F> {
    /// A stream that never fires.
    Never,
    /// A sink: its new value is set from outside by `send`.
    Sink,
    /// A cell whose value never changes.
    Constant,
    /// `f` applied to the input's new value.
    Apply { f: F },
    /// The input's new value, where `f` accepts it.
    Filter { f: F },
    /// `x` where the input's new value reads as `Some(x)`, nothing where it
    /// reads as `None` (`IsLambda::as_option`).
    FilterOption,
    /// The value of `cell`, whenever the input fires.
    Snapshot { cell: usize },
    /// `f` applied to the input's new value and the values of `cells`.
    SnapshotWith { cells: Vec<usize>, f: F },
    /// The input's new value, unchanged.
    Forward,
    /// `f` applied to the new values of all inputs, when all of them have one.
    Lift { f: F },
    /// Fires each value that `f` splits the input's value into, each in a
    /// later transaction of its own.
    Split { f: F },
    /// Fires the input's value again in a later transaction of its own.
    Defer,
    /// Reports the cell's value to its listener whenever it is updated.
    CellListener,
    /// Reports each value that the stream fires to its listener.
    StreamListener,
}

/// One node of the reactive graph.
///
/// `value` is present exactly for the nodes that are cells: it is the value
/// that the cell holds between transactions. `next` is the value that the
/// node has in the transaction under way: what a stream fires, or the value
/// that a cell takes when the transaction ends.
pub struct NodeData<V, F> {
    pub rank: usize,
    pub kind: Kind<F>,
    pub dependencies: Vec<usize>,
    pub dependents: Vec<usize>,
    pub alive: bool,
    pub value: Option<Rc<V>>,
    pub next: Option<Rc<V>>,
}

/// A handle on a node of a context: its index there.
#[derive(Clone, Copy, Debug, PartialEq, Eq)]
pub struct Node {
    pub id: usize,
}

/// A handle on a node that does not keep it listening: it gives the node back
/// only while the node is alive.
#[derive(Clone, Copy, Debug, PartialEq, Eq)]
pub struct WeakNode {
    pub id: usize,
}

/// What a value in the graph depends on: the node behind it.
#[derive(Clone, Copy, Debug, PartialEq, Eq)]
pub struct Dep {
    pub node: Node,
}

impl Node {
    /// Adds to the context a node of kind `kind` that depends on
    /// `dependencies`; `value` is the value of a cell, or nothing for a
    /// stream.
    pub fn new<V, F: IsLambda<V>>(
        ctx: &mut SodiumCtx<V, F>,
        kind: Kind<F>,
        dependencies: Vec<usize>,
        value: Option<Rc<V>>,
    ) -> (n: Node)
        requires
            old(ctx).wf(),
            forall|k: int| 0 <= k < dependencies@.len() ==> #[trigger] dependencies@[k] < old(ctx).data.len(),
            old(ctx).data.kind_wf(kind, dependencies@),
        ensures
            final(ctx).wf(),
            n.id == old(ctx).data.len(),
            SodiumCtxData::added(&old(ctx).data, &final(ctx).data, kind, dependencies@, value),
    {
        let ghost deps = dependencies@;
        let listener = match &kind {
            Kind::CellListener => true,
            _ => false,
        };
        let joins = !listener && (ctx.data.transaction_depth > 0 || ctx.data.queued_any(&dependencies));
        let id = ctx.data.add_node(kind, dependencies, value);
        let ghost mid = ctx.data;
        if joins {
            ctx.data.to_be_updated.push(id);
        }
        proof {
            SodiumCtxData::lemma_same_graph_wf(&mid, &ctx.data);
            assert(ctx.data.to_be_updated@ =~= old(ctx).data.to_be_updated@ + SodiumCtxData::joining(
                &old(ctx).data,
                kind,
                deps,
            ));
            assert forall|i: int| 0 <= i < ctx.data.len() implies (#[trigger] ctx.data.nodes@[i]).next is None
                || ctx.data.transaction_depth > 0 by {
                if i < old(ctx).data.len() && ctx.data.transaction_depth == 0 {
                    assert(old(ctx).data.nodes@[i].next is None);
                }
            }
            assert forall|k: int| 0 <= k < ctx.data.to_be_updated@.len() implies #[trigger] ctx.data.to_be_updated@[k]
                < ctx.data.len() by {
                if k < old(ctx).data.to_be_updated@.len() {
                    assert(ctx.data.to_be_updated@[k] == old(ctx).data.to_be_updated@[k]);
                }
            }
        }
        Node { id }
    }

    /// Marks dirty this node and every node that a change of it reaches,
    /// each once, for the transaction under way or, outside one, for the next
    /// one to update; the ghost result lists them.
    pub fn mark_dirty<V, F>(&self, ctx: &mut SodiumCtx<V, F>) -> (marked: Ghost<Seq<usize>>)
        requires
            old(ctx).wf(),
            self.id < old(ctx).data.len(),
        ensures
            final(ctx).wf(),
            final(ctx).data.to_be_updated@ == old(ctx).data.to_be_updated@ + marked@,
            marked@.no_duplicates(),
            forall|m: usize| #[trigger] marked@.contains(m) <==> (m < old(ctx).data.len() && old(ctx).data.reaches(self.id, m)),
            SodiumCtxData::same_but_queue(&old(ctx).data, &final(ctx).data),
    {
        ctx.data.mark_dirty(self.id)
    }

    /// Recomputes this node from its inputs, within the transaction under
    /// way.
    pub fn update<V, F: IsLambda<V>>(&self, ctx: &mut SodiumCtx<V, F>)
        requires
            old(ctx).wf(),
            old(ctx).data.transaction_depth > 0,
            self.id < old(ctx).data.len(),
        ensures
            final(ctx).wf(),
            SodiumCtxData::updated(&old(ctx).data, &final(ctx).data, self.id as int),
    {
        ctx.data.update_node(self.id);
    }

    /// A weak handle on the same node.
    pub fn downgrade(&self) -> (w: WeakNode)
        ensures
            w.id == self.id,
    {
        WeakNode { id: self.id }
    }

    /// The dependency that this node is.
    pub fn to_dep(&self) -> (d: Dep)
        ensures
            d.node == *self,
    {
        Dep { node: *self }
    }
}

impl WeakNode {
    /// The node, while it is alive.
    pub fn upgrade<V, F>(&self, ctx: &SodiumCtx<V, F>) -> (n: Option<Node>)
        ensures
            n is Some <==> (self.id < ctx.data.len() && ctx.data.nodes@[self.id as int].alive),
            n matches Some(node) ==> node.id == self.id,
    {
        if self.id < ctx.data.nodes.len() && ctx.data.nodes[self.id].alive {
            Some(Node { id: self.id })
        } else {
            None
        }
    }
}

} // verus!
