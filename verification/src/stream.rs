use vstd::prelude::*;
use std::rc::Rc;

use crate::cell::Cell;
use crate::lambda::IsLambda;
use crate::listener::Listener;
use crate::node::{Dep, Kind, Node};
use crate::sodium_ctx::{PreTrans, SodiumCtx, SodiumCtxData};

verus! {

/// A stream of events: a stream of a context.
#[derive(Clone, Copy, Debug, PartialEq, Eq)]
pub struct Stream {
    pub node: Node,
}

impl Stream {
    /// The handle is on a stream of `ctx`.
    pub open spec fn valid<V, F>(&self, ctx: &SodiumCtx<V, F>) -> bool {
        ctx.data.is_stream(self.node.id as int)
    }

    /// What the stream fires in the transaction under way, if anything.
    pub open spec fn firing<V, F>(&self, ctx: &SodiumCtx<V, F>) -> Option<V> {
        ctx.data.nx(self.node.id as int)
    }

    /// Adds a stream node of kind `kind` whose input is this stream.
    fn derive<V, F: IsLambda<V>>(&self, ctx: &mut SodiumCtx<V, F>, kind: Kind<F>) -> (s: Stream)
        requires
            old(ctx).wf(),
            self.valid(old(ctx)),
            old(ctx).data.kind_wf(kind, seq![self.node.id]),
            !(kind is CellListener),
            !(kind is StreamListener),
        ensures
            final(ctx).wf(),
            s.node.id == old(ctx).data.len(),
            s.valid(final(ctx)),
            SodiumCtxData::added(&old(ctx).data, &final(ctx).data, kind, seq![self.node.id], None),
    {
        let deps = vec![self.node.id];
        proof {
            assert(deps@ =~= seq![self.node.id]);
        }
        let n = Node::new(ctx, kind, deps, None);
        Stream { node: n }
    }

    /// A stream that never fires.
    pub fn new<V, F: IsLambda<V>>(ctx: &mut SodiumCtx<V, F>) -> (s: Stream)
        requires
            old(ctx).wf(),
        ensures
            final(ctx).wf(),
            s.node.id == old(ctx).data.len(),
            s.valid(final(ctx)),
            SodiumCtxData::added(&old(ctx).data, &final(ctx).data, Kind::Never, seq![], None),
    {
        let n = Node::new(ctx, Kind::Never, Vec::new(), None);
        proof {
            assert(Seq::<usize>::empty() =~= seq![]);
        }
        Stream { node: n }
    }

    /// The dependency that this stream is.
    pub fn to_dep(&self) -> (d: Dep)
        ensures
            d.node == self.node,
    {
        self.node.to_dep()
    }

    /// A stream that fires `f` applied to each value that this one fires.
    pub fn map<V, F: IsLambda<V>>(&self, ctx: &mut SodiumCtx<V, F>, f: F) -> (s: Stream)
        requires
            old(ctx).wf(),
            self.valid(old(ctx)),
        ensures
            final(ctx).wf(),
            s.node.id == old(ctx).data.len(),
            s.valid(final(ctx)),
            SodiumCtxData::added(&old(ctx).data, &final(ctx).data, Kind::Apply { f }, seq![self.node.id], None),
    {
        self.derive(ctx, Kind::Apply { f })
    }

    /// A cell that holds the last value that this stream fired, starting with
    /// `a` (or with what the stream fires in the transaction under way).
    pub fn hold<V, F: IsLambda<V>>(&self, ctx: &mut SodiumCtx<V, F>, a: V) -> (c: Cell)
        requires
            old(ctx).wf(),
            self.valid(old(ctx)),
        ensures
            final(ctx).wf(),
            c.node.id == old(ctx).data.len(),
            c.valid(final(ctx)),
            c.value(final(ctx)) == match self.firing(old(ctx)) {
                Some(x) => x,
                None => a,
            },
            SodiumCtx::made(old(ctx), final(ctx), Kind::Forward, seq![self.node.id]),
    {
        let init = match &ctx.data.nodes[self.node.id].next {
            Some(r) => r.clone(),
            None => Rc::new(a),
        };
        let deps = vec![self.node.id];
        proof {
            assert(deps@ =~= seq![self.node.id]);
        }
        let n = Node::new(ctx, Kind::Forward, deps, Some(init));
        Cell { node: n }
    }

    /// A stream that fires the values of this one that `pred` accepts.
    pub fn filter<V, F: IsLambda<V>>(&self, ctx: &mut SodiumCtx<V, F>, pred: F) -> (s: Stream)
        requires
            old(ctx).wf(),
            self.valid(old(ctx)),
        ensures
            final(ctx).wf(),
            s.node.id == old(ctx).data.len(),
            s.valid(final(ctx)),
            SodiumCtxData::added(&old(ctx).data, &final(ctx).data, Kind::Filter { f: pred }, seq![self.node.id], None),
    {
        self.derive(ctx, Kind::Filter { f: pred })
    }

    /// A stream of optional values made plain: it fires `x` whenever this
    /// one fires a value that reads as `Some(x)`, and nothing when this one
    /// fires `None` or nothing.
    pub fn filter_option<V, F: IsLambda<V>>(&self, ctx: &mut SodiumCtx<V, F>) -> (s: Stream)
        requires
            old(ctx).wf(),
            self.valid(old(ctx)),
        ensures
            final(ctx).wf(),
            s.node.id == old(ctx).data.len(),
            s.valid(final(ctx)),
            SodiumCtxData::added(&old(ctx).data, &final(ctx).data, Kind::FilterOption, seq![self.node.id], None),
    {
        self.derive(ctx, Kind::FilterOption)
    }

    /// A stream that fires the value of `cb` whenever this one fires.
    pub fn snapshot<V, F: IsLambda<V>>(&self, ctx: &mut SodiumCtx<V, F>, cb: Cell) -> (s: Stream)
        requires
            old(ctx).wf(),
            self.valid(old(ctx)),
            cb.valid(old(ctx)),
        ensures
            final(ctx).wf(),
            s.node.id == old(ctx).data.len(),
            s.valid(final(ctx)),
            SodiumCtxData::added(
                &old(ctx).data,
                &final(ctx).data,
                Kind::Snapshot { cell: cb.node.id },
                seq![self.node.id],
                None,
            ),
    {
        self.derive(ctx, Kind::Snapshot { cell: cb.node.id })
    }

    /// A stream that fires, whenever this one fires, `f` applied to the value
    /// fired and the values of `cells`.
    fn snapshot_all<V, F: IsLambda<V>>(&self, ctx: &mut SodiumCtx<V, F>, cells: Vec<usize>, f: F) -> (s: Stream)
        requires
            old(ctx).wf(),
            self.valid(old(ctx)),
            forall|k: int| 0 <= k < cells@.len() ==> old(ctx).data.is_cell(#[trigger] cells@[k] as int),
        ensures
            final(ctx).wf(),
            s.node.id == old(ctx).data.len(),
            s.valid(final(ctx)),
            SodiumCtxData::added(
                &old(ctx).data,
                &final(ctx).data,
                Kind::SnapshotWith { cells, f },
                seq![self.node.id],
                None,
            ),
    {
        self.derive(ctx, Kind::SnapshotWith { cells, f })
    }

    /// A stream that fires, whenever this one fires, `f` applied to the value
    /// fired and the value of `cb`.
    pub fn snapshot2<V, F: IsLambda<V>>(&self, ctx: &mut SodiumCtx<V, F>, cb: Cell, f: F) -> (s: Stream)
        requires
            old(ctx).wf(),
            self.valid(old(ctx)),
            cb.valid(old(ctx)),
        ensures
            final(ctx).wf(),
            s.node.id == old(ctx).data.len(),
            s.valid(final(ctx)),
            final(ctx).data.len() == old(ctx).data.len() + 1,
            final(ctx).data.nodes@[s.node.id as int].kind matches Kind::SnapshotWith { cells, f: g }
                && cells@ == seq![cb.node.id] && g == f,
            SodiumCtxData::added(
                &old(ctx).data,
                &final(ctx).data,
                final(ctx).data.nodes@[s.node.id as int].kind,
                seq![self.node.id],
                None,
            ),
    {
        let cells = vec![cb.node.id];
        proof {
            assert(cells@ =~= seq![cb.node.id]);
        }
        self.snapshot_all(ctx, cells, f)
    }

    /// A stream that fires, whenever this one fires, `f` applied to the value
    /// fired and the values of `cb` and `cc`.
    pub fn snapshot3<V, F: IsLambda<V>>(&self, ctx: &mut SodiumCtx<V, F>, cb: Cell, cc: Cell, f: F) -> (s: Stream)
        requires
            old(ctx).wf(),
            self.valid(old(ctx)),
            cb.valid(old(ctx)),
            cc.valid(old(ctx)),
        ensures
            final(ctx).wf(),
            s.node.id == old(ctx).data.len(),
            s.valid(final(ctx)),
            final(ctx).data.len() == old(ctx).data.len() + 1,
            final(ctx).data.nodes@[s.node.id as int].kind matches Kind::SnapshotWith { cells, f: g }
                && cells@ == seq![cb.node.id, cc.node.id] && g == f,
            SodiumCtxData::added(
                &old(ctx).data,
                &final(ctx).data,
                final(ctx).data.nodes@[s.node.id as int].kind,
                seq![self.node.id],
                None,
            ),
    {
        let cells = vec![cb.node.id, cc.node.id];
        proof {
            assert(cells@ =~= seq![cb.node.id, cc.node.id]);
        }
        self.snapshot_all(ctx, cells, f)
    }

    /// A stream that fires, whenever this one fires, `f` applied to the value
    /// fired and the values of `cb`, `cc` and `cd`.
    pub fn snapshot4<V, F: IsLambda<V>>(&self, ctx: &mut SodiumCtx<V, F>, cb: Cell, cc: Cell, cd: Cell, f: F) -> (s: Stream)
        requires
            old(ctx).wf(),
            self.valid(old(ctx)),
            cb.valid(old(ctx)),
            cc.valid(old(ctx)),
            cd.valid(old(ctx)),
        ensures
            final(ctx).wf(),
            s.node.id == old(ctx).data.len(),
            s.valid(final(ctx)),
            final(ctx).data.len() == old(ctx).data.len() + 1,
            final(ctx).data.nodes@[s.node.id as int].kind matches Kind::SnapshotWith { cells, f: g }
                && cells@ == seq![cb.node.id, cc.node.id, cd.node.id] && g == f,
            SodiumCtxData::added(
                &old(ctx).data,
                &final(ctx).data,
                final(ctx).data.nodes@[s.node.id as int].kind,
                seq![self.node.id],
                None,
            ),
    {
        let cells = vec![cb.node.id, cc.node.id, cd.node.id];
        proof {
            assert(cells@ =~= seq![cb.node.id, cc.node.id, cd.node.id]);
        }
        self.snapshot_all(ctx, cells, f)
    }

    /// A stream that fires, whenever this one fires, `f` applied to the value
    /// fired and the values of `cb`, `cc`, `cd` and `ce`.
    pub fn snapshot5<V, F: IsLambda<V>>(
        &self,
        ctx: &mut SodiumCtx<V, F>,
        cb: Cell,
        cc: Cell,
        cd: Cell,
        ce: Cell,
        f: F,
    ) -> (s: Stream)
        requires
            old(ctx).wf(),
            self.valid(old(ctx)),
            cb.valid(old(ctx)),
            cc.valid(old(ctx)),
            cd.valid(old(ctx)),
            ce.valid(old(ctx)),
        ensures
            final(ctx).wf(),
            s.node.id == old(ctx).data.len(),
            s.valid(final(ctx)),
            final(ctx).data.len() == old(ctx).data.len() + 1,
            final(ctx).data.nodes@[s.node.id as int].kind matches Kind::SnapshotWith { cells, f: g }
                && cells@ == seq![cb.node.id, cc.node.id, cd.node.id, ce.node.id] && g == f,
            SodiumCtxData::added(
                &old(ctx).data,
                &final(ctx).data,
                final(ctx).data.nodes@[s.node.id as int].kind,
                seq![self.node.id],
                None,
            ),
    {
        let cells = vec![cb.node.id, cc.node.id, cd.node.id, ce.node.id];
        proof {
            assert(cells@ =~= seq![cb.node.id, cc.node.id, cd.node.id, ce.node.id]);
        }
        self.snapshot_all(ctx, cells, f)
    }

    /// A stream that fires, whenever this one fires, `f` applied to the value
    /// fired and the values of `cb`, `cc`, `cd`, `ce` and `cf`.
    pub fn snapshot6<V, F: IsLambda<V>>(
        &self,
        ctx: &mut SodiumCtx<V, F>,
        cb: Cell,
        cc: Cell,
        cd: Cell,
        ce: Cell,
        cf: Cell,
        f: F,
    ) -> (s: Stream)
        requires
            old(ctx).wf(),
            self.valid(old(ctx)),
            cb.valid(old(ctx)),
            cc.valid(old(ctx)),
            cd.valid(old(ctx)),
            ce.valid(old(ctx)),
            cf.valid(old(ctx)),
        ensures
            final(ctx).wf(),
            s.node.id == old(ctx).data.len(),
            s.valid(final(ctx)),
            final(ctx).data.len() == old(ctx).data.len() + 1,
            final(ctx).data.nodes@[s.node.id as int].kind matches Kind::SnapshotWith { cells, f: g }
                && cells@ == seq![cb.node.id, cc.node.id, cd.node.id, ce.node.id, cf.node.id] && g == f,
            SodiumCtxData::added(
                &old(ctx).data,
                &final(ctx).data,
                final(ctx).data.nodes@[s.node.id as int].kind,
                seq![self.node.id],
                None,
            ),
    {
        let cells = vec![cb.node.id, cc.node.id, cd.node.id, ce.node.id, cf.node.id];
        proof {
            assert(cells@ =~= seq![cb.node.id, cc.node.id, cd.node.id, ce.node.id, cf.node.id]);
        }
        self.snapshot_all(ctx, cells, f)
    }

    /// Listens to the stream: its listener is told each value that the
    /// stream fires, from the transaction under way on (made inside one, it
    /// is updated with the stream in it).
    pub fn listen<V, F: IsLambda<V>>(&self, ctx: &mut SodiumCtx<V, F>) -> (l: Listener)
        requires
            old(ctx).wf(),
            self.valid(old(ctx)),
        ensures
            final(ctx).wf(),
            l.node.id == old(ctx).data.len(),
            SodiumCtxData::added(&old(ctx).data, &final(ctx).data, Kind::StreamListener, seq![self.node.id], None),
    {
        let deps = vec![self.node.id];
        proof {
            assert(deps@ =~= seq![self.node.id]);
        }
        let n = Node::new(ctx, Kind::StreamListener, deps, None);
        Listener { node: n }
    }
}

} // verus!
