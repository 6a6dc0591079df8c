use vstd::prelude::*;

use crate::lambda::IsLambda;
use crate::node::{Kind, Node};
use crate::sodium_ctx::{SodiumCtx, SodiumCtxData};
use crate::stream::Stream;

verus! {

/// A sink stream: `send` marks dirty what depends on it, but the sink keeps
/// no value, so it fires nothing. (A stream that fires each value sent is
/// `Operational::updates` of a `CellSink`.)
#[derive(Clone, Copy, Debug, PartialEq, Eq)]
pub struct StreamSink {
    pub node: Node,
}

impl StreamSink {
    /// The handle is on a sink stream of `ctx`.
    pub open spec fn valid<V, F>(&self, ctx: &SodiumCtx<V, F>) -> bool {
        &&& ctx.data.is_stream(self.node.id as int)
        &&& ctx.data.nodes@[self.node.id as int].kind is Sink
    }

    /// A sink stream.
    pub fn new<V, F: IsLambda<V>>(ctx: &mut SodiumCtx<V, F>) -> (s: StreamSink)
        requires
            old(ctx).wf(),
        ensures
            final(ctx).wf(),
            s.node.id == old(ctx).data.len(),
            s.valid(final(ctx)),
            SodiumCtxData::added(&old(ctx).data, &final(ctx).data, Kind::Sink, seq![], None),
    {
        let n = Node::new(ctx, Kind::Sink, Vec::new(), None);
        proof {
            assert(Seq::<usize>::empty() =~= seq![]);
        }
        StreamSink { node: n }
    }

    /// Sends `a`: the nodes that the stream reaches are marked dirty, in the
    /// transaction under way or in one of its own outside one, but the sink
    /// keeps no value, so it fires nothing and `a` reaches no listener.
    pub fn send<V, F: IsLambda<V>>(&self, ctx: &mut SodiumCtx<V, F>, a: V)
        requires
            old(ctx).wf(),
            self.valid(old(ctx)),
        ensures
            SodiumCtxData::pinged(&old(ctx).data, &final(ctx).data, self.node.id),
    {
        ctx.data.ping(self.node.id);
    }

    /// The stream.
    pub open spec fn spec_to_stream(&self) -> Stream {
        Stream { node: self.node }
    }

    /// The stream.
    #[verifier::when_used_as_spec(spec_to_stream)]
    pub fn to_stream(&self) -> (s: Stream)
        ensures
            s == self.spec_to_stream(),
    {
        Stream { node: self.node }
    }
}

} // verus!
