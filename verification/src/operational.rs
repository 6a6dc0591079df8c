use vstd::prelude::*;

use crate::cell::Cell;
use crate::lambda::IsLambda;
use crate::node::{Kind, Node};
use crate::sodium_ctx::{SodiumCtx, SodiumCtxData};
use crate::stream::Stream;

verus! {

/// Operations that reach into how cells and streams change.
pub struct Operational {}

impl Operational {
    /// Adds a stream node of kind `kind` whose input is `src`.
    fn derive<V, F: IsLambda<V>>(ctx: &mut SodiumCtx<V, F>, src: usize, kind: Kind<F>) -> (s: Stream)
        requires
            old(ctx).wf(),
            src < old(ctx).data.len(),
            old(ctx).data.kind_wf(kind, seq![src]),
            !(kind is CellListener),
            !(kind is StreamListener),
        ensures
            final(ctx).wf(),
            s.node.id == old(ctx).data.len(),
            s.valid(final(ctx)),
            SodiumCtxData::added(&old(ctx).data, &final(ctx).data, kind, seq![src], None),
    {
        let deps = vec![src];
        proof {
            assert(deps@ =~= seq![src]);
        }
        let n = Node::new(ctx, kind, deps, None);
        Stream { node: n }
    }

    /// A stream that fires the value of `ca` in the transaction under way
    /// when it is made inside one (outside any, no transaction is under way
    /// and it fires nothing then), and afterwards each new value that `ca`
    /// takes. It is not marked dirty when made, so that what it fires then is
    /// the value sampled.
    pub fn value<V, F: IsLambda<V>>(ctx: &mut SodiumCtx<V, F>, ca: Cell) -> (s: Stream)
        requires
            old(ctx).wf(),
            ca.valid(old(ctx)),
        ensures
            final(ctx).wf(),
            s.node.id == old(ctx).data.len(),
            s.valid(final(ctx)),
            old(ctx).depth() == 0 ==> SodiumCtxData::added_alone(
                &old(ctx).data,
                &final(ctx).data,
                Kind::Forward,
                seq![ca.node.id],
                None,
            ),
            old(ctx).depth() > 0 ==> exists|mid: SodiumCtxData<V, F>|
                #[trigger] SodiumCtxData::added_alone(&old(ctx).data, &mid, Kind::Forward, seq![ca.node.id], None)
                    && SodiumCtxData::next_set(&mid, &final(ctx).data, s.node.id, old(ctx).data.nodes@[ca.node.id as int].value),
    {
        let deps = vec![ca.node.id];
        proof {
            assert(deps@ =~= seq![ca.node.id]);
        }
        let id = ctx.data.add_node(Kind::Forward, deps, None);
        let ghost mid = ctx.data;
        proof {
            assert(SodiumCtxData::added_alone(&old(ctx).data, &mid, Kind::Forward, seq![ca.node.id], None));
            assert forall|i: int| 0 <= i < ctx.data.len() && ctx.data.transaction_depth == 0 implies
                (#[trigger] ctx.data.nodes@[i]).next is None by {
                if i < old(ctx).data.len() {
                    assert(old(ctx).data.nodes@[i].next is None);
                }
            }
        }
        if ctx.data.transaction_depth > 0 {
            let v = ca.sample_no_trans(ctx);
            proof {
                assert(ctx.data.nodes@[ca.node.id as int].value == Some(v));
            }
            ctx.data.set_next(id, Some(v));
        }
        Stream { node: Node { id } }
    }

    /// A stream that fires each new value that `ca` takes after it is made.
    pub fn updates<V, F: IsLambda<V>>(ctx: &mut SodiumCtx<V, F>, ca: Cell) -> (s: Stream)
        requires
            old(ctx).wf(),
            ca.valid(old(ctx)),
        ensures
            final(ctx).wf(),
            s.node.id == old(ctx).data.len(),
            s.valid(final(ctx)),
            SodiumCtxData::added(
                &old(ctx).data,
                &final(ctx).data,
                Kind::Forward,
                seq![ca.node.id],
                None,
            ),
    {
        Operational::derive(ctx, ca.node.id, Kind::Forward)
    }

    /// A stream that fires each value of `sa` again, in a transaction of its
    /// own after the one where `sa` fired it.
    pub fn defer<V, F: IsLambda<V>>(ctx: &mut SodiumCtx<V, F>, sa: Stream) -> (s: Stream)
        requires
            old(ctx).wf(),
            sa.valid(old(ctx)),
        ensures
            final(ctx).wf(),
            s.node.id == old(ctx).data.len(),
            s.valid(final(ctx)),
            SodiumCtxData::added(&old(ctx).data, &final(ctx).data, Kind::Defer, seq![sa.node.id], None),
    {
        Operational::derive(ctx, sa.node.id, Kind::Defer)
    }

    /// A stream that fires, for each value of `s`, the values that `f` splits
    /// it into, each in a transaction of its own after the one where `s`
    /// fired.
    pub fn split<V, F: IsLambda<V>>(ctx: &mut SodiumCtx<V, F>, s: Stream, f: F) -> (r: Stream)
        requires
            old(ctx).wf(),
            s.valid(old(ctx)),
        ensures
            final(ctx).wf(),
            r.node.id == old(ctx).data.len(),
            r.valid(final(ctx)),
            SodiumCtxData::added(&old(ctx).data, &final(ctx).data, Kind::Split { f }, seq![s.node.id], None),
    {
        Operational::derive(ctx, s.node.id, Kind::Split { f })
    }
}

} // verus!
