use vstd::prelude::*;

verus! {

/// A value computed by `thunk`, kept until `reset` computes it again.
pub struct Latch<A, T> {
    pub thunk: T,
    pub val: A,
}

impl<A, T: Fn() -> A> Latch<A, T> {
    /// A latch holding what `thunk` computes now.
    pub fn new(thunk: T) -> (l: Self)
        requires
            thunk.requires(()),
        ensures
            l.thunk == thunk,
            thunk.ensures((), l.val),
    {
        let val = thunk();
        Latch { thunk, val }
    }

    /// The value held.
    pub fn get(&self) -> (r: &A)
        ensures
            *r == self.val,
    {
        &self.val
    }

    /// The value held, to change in place.
    pub fn get_mut(&mut self) -> (r: &mut A)
        ensures
            *r == old(self).val,
            final(self).val == *final(r),
            final(self).thunk == old(self).thunk,
    {
        &mut self.val
    }

    /// Computes the value again with the thunk.
    pub fn reset(&mut self)
        requires
            old(self).thunk.requires(()),
        ensures
            final(self).thunk == old(self).thunk,
            old(self).thunk.ensures((), final(self).val),
    {
        self.val = (self.thunk)();
    }
}

} // verus!
verus! {

impl<A: Clone> Latch<A, ()> {
    /// A latch that always holds a clone of `value`.
    pub fn const_(value: A) -> (l: Latch<A, impl Fn() -> A>)
        ensures
            cloned(value, l.val),
            l.thunk.requires(()),
            forall|r: A| #[trigger] l.thunk.ensures((), r) ==> cloned(value, r),
    {
        Latch::new(move || -> (r: A)
            ensures
                cloned(value, r),
            { value.clone() })
    }
}

} // verus!
