//! The common shape of the one-dimensional interpolators.

use vstd::prelude::*;

use crate::errors::InterpError;
use crate::rat::{rat_wf, res_view, Rat};

verus! {

/// A one-dimensional interpolator: constructed over a pair of tables, it
/// approximates `f(x)` per query. Each implementation fixes `model`, the
/// exact checked-rational value of a query; `interpolate` returns precisely
/// that, and queries never change what later queries mean (the mutable state
/// is bookkeeping of the bracket search alone).
pub trait Interpolate1D: Sized {
    /// The interpolator's invariant.
    spec fn valid(&self) -> bool;

    /// The exact outcome of a query: a function of the tables and the query
    /// alone.
    spec fn model(&self, x: (int, int)) -> Result<(int, int), InterpError>;

    /// The tables the interpolator owns, in order.
    spec fn tables(&self) -> Seq<Seq<Rat>>;

    /// Approximates `f(x)`.
    ///
    /// A query never changes the tables, succeeding or failing; only the
    /// bracket search's bookkeeping moves, and the meaning of every later
    /// query stays the same.
    fn interpolate(&mut self, x: Rat) -> (r: Result<Rat, InterpError>)
        requires
            old(self).valid(),
            rat_wf(x@),
        ensures
            final(self).valid(),
            res_view(r) == old(self).model(x@),
            final(self).tables() == old(self).tables(),
            forall|q: (int, int)| #[trigger] final(self).model(q) == old(self).model(q),
            r is Ok ==> rat_wf(r.unwrap()@),
    ;
}

} // verus!
