use vstd::prelude::*;
use std::rc::Rc;

use crate::lambda::{IsLambda, deref_all};
use crate::listener::Listener;
use crate::node::{Dep, Kind, Node};
use crate::sodium_ctx::{PreTrans, SodiumCtx, SodiumCtxData};

verus! {

/// A value that changes over time: a cell of a context.
#[derive(Clone, Copy, Debug, PartialEq, Eq)]
pub struct Cell {
    pub node: Node,
}

impl<V, F: IsLambda<V>> SodiumCtx<V, F> {
    /// `b` is `a` with a node of kind `kind` added on `deps`, holding the
    /// value it got.
    pub open spec fn made(a: &Self, b: &Self, kind: Kind<F>, deps: Seq<usize>) -> bool {
        SodiumCtxData::added(&a.data, &b.data, kind, deps, b.data.nodes@[a.data.len()].value)
    }
}

impl Cell {
    /// The handle is on a cell of `ctx`.
    pub open spec fn valid<V, F>(&self, ctx: &SodiumCtx<V, F>) -> bool {
        ctx.data.is_cell(self.node.id as int)
    }

    /// The value that the cell holds.
    pub open spec fn value<V, F>(&self, ctx: &SodiumCtx<V, F>) -> V {
        ctx.data.val(self.node.id as int)
    }

    /// A cell that always holds `value`.
    pub fn new<V, F: IsLambda<V>>(ctx: &mut SodiumCtx<V, F>, value: V) -> (c: Cell)
        requires
            old(ctx).wf(),
        ensures
            final(ctx).wf(),
            c.node.id == old(ctx).data.len(),
            c.valid(final(ctx)),
            c.value(final(ctx)) == value,
            SodiumCtx::made(old(ctx), final(ctx), Kind::Constant, seq![]),
    {
        let n = Node::new(ctx, Kind::Constant, Vec::new(), Some(Rc::new(value)));
        proof {
            assert(Seq::<usize>::empty() =~= seq![]);
        }
        Cell { node: n }
    }

    /// The dependency that this cell is.
    pub fn to_dep(&self) -> (d: Dep)
        ensures
            d.node == self.node,
    {
        self.node.to_dep()
    }

    /// The value that the cell holds, as of the last transaction that ended.
    pub fn sample_no_trans<V, F>(&self, ctx: &SodiumCtx<V, F>) -> (r: Rc<V>)
        requires
            self.valid(ctx),
        ensures
            *r == self.value(ctx),
    {
        match &ctx.data.nodes[self.node.id].value {
            Some(r) => r.clone(),
            None => vstd::pervasive::unreached(),
        }
    }

    /// The value that the cell holds, read within a transaction of its own.
    pub fn sample<V, F: IsLambda<V>>(&self, ctx: &mut SodiumCtx<V, F>) -> (r: Rc<V>)
        requires
            old(ctx).wf(),
            old(ctx).depth() < usize::MAX,
            self.valid(old(ctx)),
        ensures
            final(ctx).wf(),
            *r == self.value(old(ctx)),
            SodiumCtxData::settled(&old(ctx).data, &final(ctx).data),
            forall|j: int|
                0 <= j < old(ctx).data.len() ==> (#[trigger] final(ctx).data.nodes@[j]).value
                    == old(ctx).data.nodes@[j].value,
    {
        let ghost s0 = ctx.data;
        let len_now = ctx.data.nodes.len();
        ctx.start_transaction();
        let r = self.sample_no_trans(ctx);
        let ghost s1 = ctx.data;
        ctx.end_transaction();
        proof {
            if s0.transaction_depth == 0 {
                SodiumCtxData::lemma_propagated_depth(&s1, &s0, &ctx.data);
                SodiumCtxData::lemma_idle_propagation(&s0, &ctx.data);
            }
        }
        r
    }

    /// A cell that holds `f` applied to the value of this one, and changes
    /// when this one changes.
    pub fn map<V, F: IsLambda<V>>(&self, ctx: &mut SodiumCtx<V, F>, f: F) -> (c: Cell)
        requires
            old(ctx).wf(),
            self.valid(old(ctx)),
        ensures
            final(ctx).wf(),
            c.node.id == old(ctx).data.len(),
            c.valid(final(ctx)),
            c.value(final(ctx)) == f.spec_apply(seq![self.value(old(ctx))]),
            SodiumCtx::made(old(ctx), final(ctx), Kind::Apply { f }, seq![self.node.id]),
            final(ctx).data.map_ok(c.node.id as int),
            final(ctx).data.map_staged(c.node.id as int),
    {
        let a = self.sample_no_trans(ctx);
        let mut args: Vec<Rc<V>> = Vec::new();
        args.push(a);
        proof {
            assert(deref_all(args@) =~= seq![self.value(ctx)]);
        }
        let v = f.apply(&args);
        let mut deps: Vec<usize> = Vec::new();
        deps.push(self.node.id);
        proof {
            assert(deps@ =~= seq![self.node.id]);
        }
        let ghost s0 = ctx.data;
        let n = Node::new(ctx, Kind::Apply { f }, deps, Some(Rc::new(v)));
        proof {
            let q = ctx.data.to_be_updated@;
            let id = n.id;
            if s0.transaction_depth > 0 || s0.to_be_updated@.contains(self.node.id) {
                if s0.to_be_updated@.contains(self.node.id) {
                    assert(seq![self.node.id][0] == self.node.id);
                }
                assert(q[q.len() - 1] == id);
                assert(q.contains(id));
            } else {
                assert(forall|k: int| 0 <= k < seq![self.node.id].len() ==> seq![self.node.id][k] == self.node.id);
                assert(s0.nodes@[self.node.id as int].next is None);
            }
        }
        Cell { node: n }
    }

    /// A cell that holds `f` applied to the values of `cells`, in order, and
    /// takes a new value in the transactions where all of them do.
    fn lift_all<V, F: IsLambda<V>>(ctx: &mut SodiumCtx<V, F>, cells: Vec<usize>, f: F) -> (c: Cell)
        requires
            old(ctx).wf(),
            cells@.len() >= 1,
            forall|k: int| 0 <= k < cells@.len() ==> old(ctx).data.is_cell(#[trigger] cells@[k] as int),
        ensures
            final(ctx).wf(),
            c.node.id == old(ctx).data.len(),
            c.valid(final(ctx)),
            c.value(final(ctx)) == f.spec_apply(old(ctx).data.vals(cells@)),
            SodiumCtx::made(old(ctx), final(ctx), Kind::Lift { f }, cells@),
    {
        let mut args: Vec<Rc<V>> = Vec::new();
        let mut k: usize = 0;
        while k < cells.len()
            invariant
                k <= cells@.len(),
                forall|k: int| 0 <= k < cells@.len() ==> ctx.data.is_cell(#[trigger] cells@[k] as int),
                args@.len() == k,
                forall|j: int| 0 <= j < k ==> *args@[j] == ctx.data.val(#[trigger] cells@[j] as int),
            decreases cells@.len() - k,
        {
            let c = Cell { node: Node { id: cells[k] } };
            args.push(c.sample_no_trans(ctx));
            k = k + 1;
        }
        proof {
            assert(deref_all(args@) =~= ctx.data.vals(cells@)) by {
                assert forall|j: int| 0 <= j < args@.len() implies deref_all(args@)[j] == ctx.data.vals(cells@)[j] by {
                    assert(*args@[j] == ctx.data.val(cells@[j] as int));
                }
            }
            assert forall|k: int| 0 <= k < cells@.len() implies #[trigger] cells@[k] < ctx.data.len() by {
                assert(ctx.data.is_cell(cells@[k] as int));
            }
        }
        let v = f.apply(&args);
        let n = Node::new(ctx, Kind::Lift { f }, cells, Some(Rc::new(v)));
        Cell { node: n }
    }

    /// A cell that holds `f` applied to the values of this cell and `cb`.
    /// It takes a new value in the transactions where both of them do.
    pub fn lift2<V, F: IsLambda<V>>(&self, ctx: &mut SodiumCtx<V, F>, cb: Cell, f: F) -> (c: Cell)
        requires
            old(ctx).wf(),
            self.valid(old(ctx)),
            cb.valid(old(ctx)),
        ensures
            final(ctx).wf(),
            c.valid(final(ctx)),
            c.value(final(ctx)) == f.spec_apply(seq![self.value(old(ctx)), cb.value(old(ctx))]),
            SodiumCtx::made(old(ctx), final(ctx), Kind::Lift { f }, seq![self.node.id, cb.node.id]),
    {
        let cells = vec![self.node.id, cb.node.id];
        proof {
            assert(cells@ =~= seq![self.node.id, cb.node.id]);
            assert(ctx.data.vals(cells@) =~= seq![self.value(ctx), cb.value(ctx)]);
        }
        Cell::lift_all(ctx, cells, f)
    }

    /// A cell that holds the function that `cf` holds applied to the value of
    /// this cell; `app` says how a value that stands for a function applies
    /// (its arguments: this cell's value, then `cf`'s). It takes a new value
    /// in the transactions where both cells do.
    pub fn apply<V, F: IsLambda<V>>(&self, ctx: &mut SodiumCtx<V, F>, cf: Cell, app: F) -> (c: Cell)
        requires
            old(ctx).wf(),
            self.valid(old(ctx)),
            cf.valid(old(ctx)),
        ensures
            final(ctx).wf(),
            c.valid(final(ctx)),
            c.value(final(ctx)) == app.spec_apply(seq![self.value(old(ctx)), cf.value(old(ctx))]),
            SodiumCtx::made(old(ctx), final(ctx), Kind::Lift { f: app }, seq![self.node.id, cf.node.id]),
    {
        self.lift2(ctx, cf, app)
    }

    /// A cell that holds `f` applied to the values of this cell, `cb` and
    /// `cc`. It takes a new value in the transactions where all of them do.
    pub fn lift3<V, F: IsLambda<V>>(&self, ctx: &mut SodiumCtx<V, F>, cb: Cell, cc: Cell, f: F) -> (c: Cell)
        requires
            old(ctx).wf(),
            self.valid(old(ctx)),
            cb.valid(old(ctx)),
            cc.valid(old(ctx)),
        ensures
            final(ctx).wf(),
            c.valid(final(ctx)),
            c.value(final(ctx)) == f.spec_apply(
                seq![self.value(old(ctx)), cb.value(old(ctx)), cc.value(old(ctx))],
            ),
            SodiumCtx::made(old(ctx), final(ctx), Kind::Lift { f }, seq![self.node.id, cb.node.id, cc.node.id]),
    {
        let cells = vec![self.node.id, cb.node.id, cc.node.id];
        proof {
            assert(cells@ =~= seq![self.node.id, cb.node.id, cc.node.id]);
            assert(ctx.data.vals(cells@) =~= seq![self.value(ctx), cb.value(ctx), cc.value(ctx)]);
        }
        Cell::lift_all(ctx, cells, f)
    }

    /// A cell that holds `f` applied to the values of this cell, `cb`, `cc`
    /// and `cd`. It takes a new value in the transactions where all of them
    /// do.
    pub fn lift4<V, F: IsLambda<V>>(&self, ctx: &mut SodiumCtx<V, F>, cb: Cell, cc: Cell, cd: Cell, f: F) -> (c: Cell)
        requires
            old(ctx).wf(),
            self.valid(old(ctx)),
            cb.valid(old(ctx)),
            cc.valid(old(ctx)),
            cd.valid(old(ctx)),
        ensures
            final(ctx).wf(),
            c.valid(final(ctx)),
            c.value(final(ctx)) == f.spec_apply(
                seq![self.value(old(ctx)), cb.value(old(ctx)), cc.value(old(ctx)), cd.value(old(ctx))],
            ),
            SodiumCtx::made(
                old(ctx),
                final(ctx),
                Kind::Lift { f },
                seq![self.node.id, cb.node.id, cc.node.id, cd.node.id],
            ),
    {
        let cells = vec![self.node.id, cb.node.id, cc.node.id, cd.node.id];
        proof {
            assert(cells@ =~= seq![self.node.id, cb.node.id, cc.node.id, cd.node.id]);
            assert(ctx.data.vals(cells@) =~= seq![self.value(ctx), cb.value(ctx), cc.value(ctx), cd.value(ctx)]);
        }
        Cell::lift_all(ctx, cells, f)
    }

    /// A cell that holds `f` applied to the values of this cell, `cb`, `cc`,
    /// `cd` and `ce`. It takes a new value in the transactions where all of
    /// them do.
    pub fn lift5<V, F: IsLambda<V>>(
        &self,
        ctx: &mut SodiumCtx<V, F>,
        cb: Cell,
        cc: Cell,
        cd: Cell,
        ce: Cell,
        f: F,
    ) -> (c: Cell)
        requires
            old(ctx).wf(),
            self.valid(old(ctx)),
            cb.valid(old(ctx)),
            cc.valid(old(ctx)),
            cd.valid(old(ctx)),
            ce.valid(old(ctx)),
        ensures
            final(ctx).wf(),
            c.valid(final(ctx)),
            c.value(final(ctx)) == f.spec_apply(
                seq![
                    self.value(old(ctx)),
                    cb.value(old(ctx)),
                    cc.value(old(ctx)),
                    cd.value(old(ctx)),
                    ce.value(old(ctx)),
                ],
            ),
            SodiumCtx::made(
                old(ctx),
                final(ctx),
                Kind::Lift { f },
                seq![self.node.id, cb.node.id, cc.node.id, cd.node.id, ce.node.id],
            ),
    {
        let cells = vec![self.node.id, cb.node.id, cc.node.id, cd.node.id, ce.node.id];
        proof {
            assert(cells@ =~= seq![self.node.id, cb.node.id, cc.node.id, cd.node.id, ce.node.id]);
            assert(ctx.data.vals(cells@) =~= seq![
                self.value(ctx),
                cb.value(ctx),
                cc.value(ctx),
                cd.value(ctx),
                ce.value(ctx),
            ]);
        }
        Cell::lift_all(ctx, cells, f)
    }

    /// A cell that holds `f` applied to the values of this cell, `cb`, `cc`,
    /// `cd`, `ce` and `cf`. It takes a new value in the transactions where
    /// all of them do.
    pub fn lift6<V, F: IsLambda<V>>(
        &self,
        ctx: &mut SodiumCtx<V, F>,
        cb: Cell,
        cc: Cell,
        cd: Cell,
        ce: Cell,
        cf: Cell,
        f: F,
    ) -> (c: Cell)
        requires
            old(ctx).wf(),
            self.valid(old(ctx)),
            cb.valid(old(ctx)),
            cc.valid(old(ctx)),
            cd.valid(old(ctx)),
            ce.valid(old(ctx)),
            cf.valid(old(ctx)),
        ensures
            final(ctx).wf(),
            c.valid(final(ctx)),
            c.value(final(ctx)) == f.spec_apply(
                seq![
                    self.value(old(ctx)),
                    cb.value(old(ctx)),
                    cc.value(old(ctx)),
                    cd.value(old(ctx)),
                    ce.value(old(ctx)),
                    cf.value(old(ctx)),
                ],
            ),
            SodiumCtx::made(
                old(ctx),
                final(ctx),
                Kind::Lift { f },
                seq![self.node.id, cb.node.id, cc.node.id, cd.node.id, ce.node.id, cf.node.id],
            ),
    {
        let cells = vec![self.node.id, cb.node.id, cc.node.id, cd.node.id, ce.node.id, cf.node.id];
        proof {
            assert(cells@ =~= seq![self.node.id, cb.node.id, cc.node.id, cd.node.id, ce.node.id, cf.node.id]);
            assert(ctx.data.vals(cells@) =~= seq![
                self.value(ctx),
                cb.value(ctx),
                cc.value(ctx),
                cd.value(ctx),
                ce.value(ctx),
                cf.value(ctx),
            ]);
        }
        Cell::lift_all(ctx, cells, f)
    }

    /// Listens to the cell: its listener is told the cell's value at the start
    /// of the next propagation, then its value whenever the cell is updated.
    pub fn listen<V, F: IsLambda<V>>(&self, ctx: &mut SodiumCtx<V, F>) -> (l: Listener)
        requires
            old(ctx).wf(),
            self.valid(old(ctx)),
        ensures
            final(ctx).wf(),
            l.node.id == old(ctx).data.len(),
            SodiumCtxData::added_but_pre(&old(ctx).data, &final(ctx).data, Kind::CellListener, seq![self.node.id], None),
            final(ctx).data.pre_trans@ == old(ctx).data.pre_trans@.push(
                PreTrans::Sample { listener: l.node.id, cell: self.node.id },
            ),
    {
        let deps = vec![self.node.id];
        proof {
            assert(deps@ =~= seq![self.node.id]);
        }
        let n = Node::new(ctx, Kind::CellListener, deps, None);
        ctx.pre_trans(PreTrans::Sample { listener: n.id, cell: self.node.id });
        Listener { node: n }
    }
}

} // verus!
