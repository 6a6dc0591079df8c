use vstd::prelude::*;

verus! {

/// A value computed by `thunk` the first time it is asked for, and kept.
pub struct MemoLazy<A, T> {
    pub thunk: T,
    pub val_op: Option<A>,
}

impl<A, T: Fn() -> A> MemoLazy<A, T> {
    /// A lazy value that `thunk` computes; nothing is computed yet.
    pub fn new(thunk: T) -> (m: Self)
        ensures
            m.thunk == thunk,
            m.val_op is None,
    {
        MemoLazy { thunk, val_op: None }
    }

    /// The value: computed by the thunk on the first call, the kept one on
    /// every later call.
    pub fn get(&mut self) -> (r: &A)
        requires
            old(self).val_op is None ==> old(self).thunk.requires(()),
        ensures
            final(self).thunk == old(self).thunk,
            final(self).val_op == Some(*r),
            old(self).val_op matches Some(v) ==> *r == v,
            old(self).val_op is None ==> old(self).thunk.ensures((), *r),
    {
        if self.val_op.is_none() {
            let v = (self.thunk)();
            self.val_op = Some(v);
        }
        match &self.val_op {
            Some(v) => v,
            None => vstd::pervasive::unreached(),
        }
    }
}

} // verus!
