use vstd::prelude::*;

use crate::graph;
use crate::node::Node;
use crate::sodium_ctx::{SodiumCtx, SodiumCtxData};

verus! {

/// A listener of a cell or a stream: the node that reports to it.
#[derive(Clone, Copy, Debug, PartialEq, Eq)]
pub struct Listener {
    pub node: Node,
}

impl Listener {
    /// The listener that `node` reports to.
    pub fn new(node: Node) -> (l: Listener)
        ensures
            l.node == node,
    {
        Listener { node }
    }

    /// The handle is on a listener node of `ctx`.
    pub open spec fn valid<V, F>(&self, ctx: &SodiumCtx<V, F>) -> bool {
        &&& self.node.id < ctx.data.len()
        &&& (ctx.data.nodes@[self.node.id as int].kind is CellListener
            || ctx.data.nodes@[self.node.id as int].kind is StreamListener)
    }

    /// Stops listening: the listener node is detached from the graph, so that
    /// no later change reaches it. (What was reported already, or queued to be
    /// reported at the start of the next propagation, stays.)
    pub fn unlisten<V, F>(&self, ctx: &mut SodiumCtx<V, F>)
        requires
            old(ctx).wf(),
            self.valid(old(ctx)),
        ensures
            final(ctx).wf(),
            final(ctx).data.len() == old(ctx).data.len(),
            !final(ctx).data.nodes@[self.node.id as int].alive,
            final(ctx).data.detached(self.node.id),
            forall|j: int|
                0 <= j < old(ctx).data.len() ==> {
                    &&& (#[trigger] final(ctx).data.nodes@[j]).dependents@ == SodiumCtxData::<V, F>::without(
                        old(ctx).data.dependents(j),
                        self.node.id,
                    )
                    &&& !final(ctx).data.dependents(j).contains(self.node.id)
                    &&& final(ctx).data.nodes@[j].rank == old(ctx).data.nodes@[j].rank
                    &&& final(ctx).data.nodes@[j].kind == old(ctx).data.nodes@[j].kind
                    &&& final(ctx).data.nodes@[j].dependencies@ == old(ctx).data.nodes@[j].dependencies@
                    &&& final(ctx).data.nodes@[j].value == old(ctx).data.nodes@[j].value
                    &&& final(ctx).data.nodes@[j].next == old(ctx).data.nodes@[j].next
                    &&& final(ctx).data.nodes@[j].alive == (old(ctx).data.nodes@[j].alive && j
                        != self.node.id)
                },
            final(ctx).depth() == old(ctx).depth(),
            final(ctx).data.to_be_updated@ == old(ctx).data.to_be_updated@,
            final(ctx).data.pre_trans@ == old(ctx).data.pre_trans@,
            final(ctx).data.deferred@ == old(ctx).data.deferred@,
            final(ctx).data.events@ == old(ctx).data.events@,
    {
        ctx.data.detach(self.node.id);
        proof {
            assert forall|j: int| 0 <= j < old(ctx).data.len() implies !ctx.data.dependents(j).contains(self.node.id) by {
                let id = self.node.id;
                if ctx.data.dependents(j).contains(id) {
                    let w = choose|w: int| 0 <= w < ctx.data.dependents(j).len() && ctx.data.dependents(j)[w] == id;
                    old(ctx).data.dependents(j).lemma_filter_pred(SodiumCtxData::<V, F>::not_id(id), w);
                    assert(false);
                }
            }
        }
    }
}

} // verus!
