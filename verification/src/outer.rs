//! The bridge to the `lambda_calculus` crate, which reduces terms and writes
//! them in De Bruijn notation.
//!
//! A term of that crate is opaque here. What it holds is named by [`model`]; the
//! conversions in both directions are verified against the constructors and the
//! destructor below, whose contracts are taken on trust, as are those of the
//! reduction and of the notation.

use vstd::prelude::*;
use crate::term::{abs_of, app_of, Term, MAX_SIZE};
use lambda_calculus::term::Term as OuterTerm;

verus! {

/// The term type of `lambda_calculus`.
#[verifier::external_type_specification]
#[verifier::external_body]
pub struct ExOuterTerm(OuterTerm);

/// The tree that a term of `lambda_calculus` holds.
pub uninterp spec fn model(t: OuterTerm) -> Term;

/// What `lambda_calculus::beta` returns in normal order for the term `t` with at
/// most `limit` contractions.
pub uninterp spec fn normal_order_reduct(t: Term, limit: nat) -> Term;

/// The text that `lambda_calculus` gives for `t` in De Bruijn notation.
pub uninterp spec fn debruijn_text(t: Term) -> Seq<char>;

/// One level of a term of `lambda_calculus`.
pub enum Node {
    /// a variable and its index
    Var(usize),
    /// an abstraction and its body
    Abs(OuterTerm),
    /// an application, its function and its argument
    App(OuterTerm, OuterTerm),
}

impl Node {
    /// The tree that the node stands for.
    pub open spec fn model(self) -> Term {
        match self {
            Node::Var(i) => Term::Var(i),
            Node::Abs(b) => abs_of(model(b)),
            Node::App(f, x) => app_of(model(f), model(x)),
        }
    }
}

/// `lambda_calculus::Term::Var`: the variant holds the index and nothing else.
#[verifier::external_body]
fn outer_var(index: usize) -> (r: OuterTerm)
    ensures
        model(r) == Term::Var(index),
{
    OuterTerm::Var(index)
}

/// `lambda_calculus::abs`: boxes `body` into the `Abs` variant.
#[verifier::external_body]
fn outer_abs(body: OuterTerm) -> (r: OuterTerm)
    ensures
        model(r) == abs_of(model(body)),
{
    lambda_calculus::abs(body)
}

/// `lambda_calculus::app`: boxes the pair into the `App` variant, reducing nothing.
#[verifier::external_body]
fn outer_app(lhs: OuterTerm, rhs: OuterTerm) -> (r: OuterTerm)
    ensures
        model(r) == app_of(model(lhs), model(rhs)),
{
    lambda_calculus::app(lhs, rhs)
}

/// The three variants of `lambda_calculus::term::Term`: takes a term apart by
/// them, moving the fields out, so that the node holds what the term held.
#[verifier::external_body]
fn outer_open(t: OuterTerm) -> (r: Node)
    ensures
        r.model() == model(t),
{
    match t {
        OuterTerm::Var(i) => Node::Var(i),
        OuterTerm::Abs(b) => Node::Abs(*b),
        OuterTerm::App(p) => Node::App(p.0, p.1),
    }
}

/// `lambda_calculus::beta` in the order `NOR`. With a positive `limit` it makes at
/// most that many contractions and returns; what it returns depends on the term
/// and the limit alone. It adds nesting depths to indices in `usize`, so the
/// indices it is given stay below half of the range: no term that fits in memory
/// is deep enough to carry such an index past `usize::MAX`.
#[verifier::external_body]
pub(crate) fn outer_beta(t: OuterTerm, limit: usize) -> (r: OuterTerm)
    requires
        limit > 0,
        model(t).indices_within(MAX_SIZE as nat),
    ensures
        model(r) == normal_order_reduct(model(t), limit as nat),
{
    lambda_calculus::beta(t, lambda_calculus::NOR, limit)
}

/// The `Debug` form of a term of `lambda_calculus`, which is its De Bruijn
/// notation: a function of the term alone.
#[verifier::external_body]
pub(crate) fn outer_debug(t: &OuterTerm) -> (r: String)
    ensures
        r@ == debruijn_text(model(*t)),
{
    format!("{:?}", t)
}

/// Builds the term of `lambda_calculus` that holds `t`.
pub fn export(t: &Term) -> (r: OuterTerm)
    ensures
        model(r) == *t,
    decreases *t,
{
    match t {
        Term::Var(i) => outer_var(*i),
        Term::Abs(b) => outer_abs(export(b)),
        Term::App(f, x) => outer_app(export(f), export(x)),
    }
}

/// Reads a term of `lambda_calculus` into a term of this library.
pub fn import(t: OuterTerm) -> (r: Term)
    ensures
        r == model(t),
    decreases model(t).size(),
{
    match outer_open(t) {
        Node::Var(i) => Term::Var(i),
        Node::Abs(b) => Term::Abs(Box::new(import(b))),
        Node::App(f, x) => Term::App(Box::new(import(f)), Box::new(import(x))),
    }
}

} // verus!
