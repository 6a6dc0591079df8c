use vstd::prelude::*;
use std::rc::Rc;

use crate::cell::Cell;
use crate::lambda::IsLambda;
use crate::node::{Kind, Node};
use crate::sodium_ctx::{SodiumCtx, SodiumCtxData};

verus! {

/// A cell whose value is set from outside, by `send`.
#[derive(Clone, Copy, Debug, PartialEq, Eq)]
pub struct CellSink {
    pub node: Node,
}

impl CellSink {
    /// The handle is on a sink cell of `ctx`.
    pub open spec fn valid<V, F>(&self, ctx: &SodiumCtx<V, F>) -> bool {
        &&& ctx.data.is_cell(self.node.id as int)
        &&& ctx.data.nodes@[self.node.id as int].kind is Sink
    }

    /// A sink cell that holds `value` until a send changes it.
    pub fn new<V, F: IsLambda<V>>(ctx: &mut SodiumCtx<V, F>, value: V) -> (c: CellSink)
        requires
            old(ctx).wf(),
        ensures
            final(ctx).wf(),
            c.node.id == old(ctx).data.len(),
            c.valid(final(ctx)),
            c.to_cell().value(final(ctx)) == value,
            SodiumCtx::made(old(ctx), final(ctx), Kind::Sink, seq![]),
    {
        let n = Node::new(ctx, Kind::Sink, Vec::new(), Some(Rc::new(value)));
        proof {
            assert(Seq::<usize>::empty() =~= seq![]);
        }
        CellSink { node: n }
    }

    /// Sets the value of the cell to `a`: at once outside a transaction, when
    /// the transaction under way ends inside one.
    pub fn send<V, F: IsLambda<V>>(&self, ctx: &mut SodiumCtx<V, F>, a: V)
        requires
            old(ctx).wf(),
            self.valid(old(ctx)),
        ensures
            SodiumCtxData::sent(&old(ctx).data, &final(ctx).data, self.node.id, a),
            old(ctx).depth() == 0 ==> self.to_cell().value(final(ctx)) == a,
    {
        ctx.data.send_to(self.node.id, a);
    }

    /// The cell.
    pub open spec fn spec_to_cell(&self) -> Cell {
        Cell { node: self.node }
    }

    /// The cell.
    #[verifier::when_used_as_spec(spec_to_cell)]
    pub fn to_cell(&self) -> (c: Cell)
        ensures
            c == self.spec_to_cell(),
    {
        Cell { node: self.node }
    }
}

} // verus!
