//! Normal-order β-reduction.

use vstd::prelude::*;
use crate::outer::{export, import, normal_order_reduct, outer_beta};
use crate::term::{Term, MAX_SIZE};

verus! {

/// The number of contractions that a limit allows: 0 asks for as many as can be
/// counted.
pub open spec fn steps_allowed(limit: usize) -> nat {
    if limit == 0 {
        usize::MAX as nat
    } else {
        limit as nat
    }
}

/// The term that [`reduce`] returns for `t` and `limit`.
pub open spec fn reduct(t: Term, limit: usize) -> Term {
    normal_order_reduct(t, steps_allowed(limit))
}

/// Reduces `term` in normal order, leftmost-outermost and under binders, until no
/// redex is left or `limit` contractions are made. A `limit` of 0 sets no bound
/// short of what `usize` can count.
pub fn reduce(term: Term, limit: usize) -> (r: Term)
    requires
        term.indices_within(MAX_SIZE as nat),
    ensures
        r == reduct(term, limit),
{
    let steps: usize = if limit == 0 { usize::MAX } else { limit };
    import(outer_beta(export(&term), steps))
}

} // verus!
