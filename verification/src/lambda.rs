use vstd::prelude::*;
use std::rc::Rc;

verus! {

/// The sequence of values behind a sequence of shared handles.
pub open spec fn deref_all<V>(s: Seq<Rc<V>>) -> Seq<V> {
    s.map_values(|r: Rc<V>| *r)
}

/// The value behind an optional shared handle.
pub open spec fn opt_val<V>(o: Option<Rc<V>>) -> Option<V> {
    match o {
        Some(r) => Some(*r),
        None => None,
    }
}

/// A user function that the reactive graph calls when it recomputes a node.
///
/// One type of the user's choice holds every function of a context; each node
/// calls the method that its operation needs:
/// - `apply` computes the value of `map`, `lift2`..`lift6` and
///   `snapshot2`..`snapshot6` from the values of the inputs, in order;
/// - `test` is the predicate of `filter`;
/// - `as_option` reads a value as an optional one (`Some(x)` or `None`), the
///   way values of the context's type encode options: `filter_option` fires
///   `x` for each `Some(x)` that its input fires and nothing for `None`;
/// - `split` lists the values that `Operational::split` fires one by one.
///
/// Each method must compute its spec function; the graph relies on that.
/// An implementation checked by Verus defines the spec functions and is held
/// to them. An implementation written outside Verus cannot define them and
/// gets the bodies below, which exist only so that it compiles: they are one
/// fixed value for every input, which such an implementation does not meet.
/// Nothing in the library reads them: its proofs are generic in the function
/// type, for which these bodies are hidden.
pub trait IsLambda<V>: Sized {
    open spec fn spec_apply(&self, args: Seq<V>) -> V {
        arbitrary()
    }

    open spec fn spec_test(&self, a: V) -> bool {
        arbitrary()
    }

    open spec fn spec_as_option(a: V) -> Option<V> {
        arbitrary()
    }

    open spec fn spec_split(&self, a: V) -> Seq<V> {
        arbitrary()
    }

    fn apply(&self, args: &Vec<Rc<V>>) -> (r: V)
        ensures
            r == self.spec_apply(deref_all(args@)),
    ;

    fn test(&self, a: &V) -> (r: bool)
        ensures
            r == self.spec_test(*a),
    ;

    fn as_option(a: &V) -> (r: Option<V>)
        ensures
            r == Self::spec_as_option(*a),
    ;

    fn split(&self, a: &V) -> (r: Vec<V>)
        ensures
            r@ == self.spec_split(*a),
    ;
}

} // verus!
