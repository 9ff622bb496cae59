//! Lambda terms with De Bruijn indices.

use vstd::prelude::*;

verus! {

/// The largest size of one allocation, which bounds the lengths of the byte
/// strings built here and the indices of the terms that are reduced.
pub const MAX_SIZE: usize = usize::MAX / 2;

/// A lambda term. A variable carries a 1-based De Bruijn index: `Var(i)` refers to
/// the `i`-th enclosing binder. The index 0 names no binder.
#[derive(Debug, PartialEq, Eq)]
pub enum Term {
    /// a variable
    Var(usize),
    /// an abstraction over a body
    Abs(Box<Term>),
    /// an application of a function to an argument
    App(Box<Term>, Box<Term>),
}

/// The error of a destructor applied to a term of another shape.
#[derive(Debug, PartialEq, Eq, Clone, Copy)]
pub enum TermError {
    /// the term is not a variable
    NotVar,
    /// the term is not an abstraction
    NotAbs,
    /// the term is not an application
    NotApp,
}

/// The abstraction over `body`, as a value of specifications.
pub open spec fn abs_of(body: Term) -> Term {
    Term::Abs(Box::new(body))
}

/// The application of `lhs` to `rhs`, as a value of specifications.
pub open spec fn app_of(lhs: Term, rhs: Term) -> Term {
    Term::App(Box::new(lhs), Box::new(rhs))
}

/// The Church boolean true, `λλ2`.
pub open spec fn tru_term() -> Term {
    abs_of(abs_of(Term::Var(2)))
}

/// The Church boolean false, `λλ1`, which is also the empty list.
pub open spec fn fls_term() -> Term {
    abs_of(abs_of(Term::Var(1)))
}

impl Term {
    /// The number of nodes of the term.
    pub open spec fn size(self) -> nat
        decreases self,
    {
        match self {
            Term::Var(_) => 1,
            Term::Abs(b) => 1 + b.size(),
            Term::App(f, x) => 1 + f.size() + x.size(),
        }
    }

    /// Every index in the term is positive.
    pub open spec fn well_formed(self) -> bool
        decreases self,
    {
        match self {
            Term::Var(i) => i >= 1,
            Term::Abs(b) => b.well_formed(),
            Term::App(f, x) => f.well_formed() && x.well_formed(),
        }
    }

    /// Every index in the term is at most `bound`.
    pub open spec fn indices_within(self, bound: nat) -> bool
        decreases self,
    {
        match self {
            Term::Var(i) => i <= bound,
            Term::Abs(b) => b.indices_within(bound),
            Term::App(f, x) => f.indices_within(bound) && x.indices_within(bound),
        }
    }

    /// Every variable is bound once `depth` binders enclose the term.
    pub open spec fn closed_under(self, depth: nat) -> bool
        decreases self,
    {
        match self {
            Term::Var(i) => 1 <= i <= depth,
            Term::Abs(b) => b.closed_under(depth + 1),
            Term::App(f, x) => f.closed_under(depth) && x.closed_under(depth),
        }
    }

    /// The term has no free variable.
    pub open spec fn closed(self) -> bool {
        self.closed_under(0)
    }

    /// Indices within a bound are within any larger bound.
    pub proof fn lemma_indices_within_more(self, bound: nat, larger: nat)
        requires
            self.indices_within(bound),
            bound <= larger,
        ensures
            self.indices_within(larger),
        decreases self,
    {
        match self {
            Term::Var(_) => {},
            Term::Abs(b) => b.lemma_indices_within_more(bound, larger),
            Term::App(f, x) => {
                f.lemma_indices_within_more(bound, larger);
                x.lemma_indices_within_more(bound, larger);
            },
        }
    }

    /// A term that is closed under some depth is closed under any larger one.
    pub proof fn lemma_closed_deeper(self, depth: nat, deeper: nat)
        requires
            self.closed_under(depth),
            depth <= deeper,
        ensures
            self.closed_under(deeper),
        decreases self,
    {
        match self {
            Term::Var(_) => {},
            Term::Abs(b) => b.lemma_closed_deeper(depth + 1, deeper + 1),
            Term::App(f, x) => {
                f.lemma_closed_deeper(depth, deeper);
                x.lemma_closed_deeper(depth, deeper);
            },
        }
    }

    /// A term with positive indices is closed under as many binders as its
    /// largest index asks for.
    pub proof fn lemma_closed_under_bound(self, bound: nat, depth: nat)
        requires
            self.well_formed(),
            self.indices_within(bound),
            bound <= depth,
        ensures
            self.closed_under(depth),
        decreases self,
    {
        match self {
            Term::Var(_) => {},
            Term::Abs(b) => b.lemma_closed_under_bound(bound, depth + 1),
            Term::App(f, x) => {
                f.lemma_closed_under_bound(bound, depth);
                x.lemma_closed_under_bound(bound, depth);
            },
        }
    }

    /// Under a depth that no index can exceed, a term is closed as soon as its
    /// indices are positive.
    pub proof fn lemma_closed_under_all(self, depth: nat)
        requires
            depth >= usize::MAX,
        ensures
            self.closed_under(depth) == self.well_formed(),
        decreases self,
    {
        match self {
            Term::Var(_) => {},
            Term::Abs(b) => b.lemma_closed_under_all(depth + 1),
            Term::App(f, x) => {
                f.lemma_closed_under_all(depth);
                x.lemma_closed_under_all(depth);
            },
        }
    }

    /// Whether the term is a variable.
    pub fn is_var(&self) -> (r: bool)
        ensures
            r == (*self is Var),
    {
        match self {
            Term::Var(_) => true,
            _ => false,
        }
    }

    /// Whether the term is an abstraction.
    pub fn is_abs(&self) -> (r: bool)
        ensures
            r == (*self is Abs),
    {
        match self {
            Term::Abs(_) => true,
            _ => false,
        }
    }

    /// Whether the term is an application.
    pub fn is_app(&self) -> (r: bool)
        ensures
            r == (*self is App),
    {
        match self {
            Term::App(_, _) => true,
            _ => false,
        }
    }

    /// The index of a variable.
    pub fn unvar(self) -> (r: Result<usize, TermError>)
        ensures
            r == match self {
                Term::Var(i) => Ok::<usize, TermError>(i),
                _ => Err::<usize, TermError>(TermError::NotVar),
            },
    {
        match self {
            Term::Var(i) => Ok(i),
            _ => Err(TermError::NotVar),
        }
    }

    /// The body of an abstraction.
    pub fn unabs(self) -> (r: Result<Term, TermError>)
        ensures
            r == match self {
                Term::Abs(b) => Ok::<Term, TermError>(*b),
                _ => Err::<Term, TermError>(TermError::NotAbs),
            },
    {
        match self {
            Term::Abs(b) => Ok(*b),
            _ => Err(TermError::NotAbs),
        }
    }

    /// The function and the argument of an application.
    pub fn unapp(self) -> (r: Result<(Term, Term), TermError>)
        ensures
            r == match self {
                Term::App(f, x) => Ok::<(Term, Term), TermError>((*f, *x)),
                _ => Err::<(Term, Term), TermError>(TermError::NotApp),
            },
    {
        match self {
            Term::App(f, x) => Ok((*f, *x)),
            _ => Err(TermError::NotApp),
        }
    }

    /// Whether every index in the term is positive.
    pub fn is_well_formed(&self) -> (r: bool)
        ensures
            r == self.well_formed(),
        decreases *self,
    {
        match self {
            Term::Var(i) => *i >= 1,
            Term::Abs(b) => b.is_well_formed(),
            Term::App(f, x) => f.is_well_formed() && x.is_well_formed(),
        }
    }

    /// Whether every index in the term is at most `bound`.
    pub fn has_indices_within(&self, bound: usize) -> (r: bool)
        ensures
            r == self.indices_within(bound as nat),
        decreases *self,
    {
        match self {
            Term::Var(i) => *i <= bound,
            Term::Abs(b) => b.has_indices_within(bound),
            Term::App(f, x) => f.has_indices_within(bound) && x.has_indices_within(bound),
        }
    }

    /// Whether every variable is bound once `depth` binders enclose the term.
    pub fn is_closed_under(&self, depth: usize) -> (r: bool)
        ensures
            r == self.closed_under(depth as nat),
        decreases *self,
    {
        match self {
            Term::Var(i) => 1 <= *i && *i <= depth,
            Term::Abs(b) => {
                if depth < usize::MAX {
                    b.is_closed_under(depth + 1)
                } else {
                    proof {
                        b.lemma_closed_under_all(depth as nat + 1);
                    }
                    b.is_well_formed()
                }
            },
            Term::App(f, x) => f.is_closed_under(depth) && x.is_closed_under(depth),
        }
    }

    /// Whether the term has no free variable.
    pub fn is_closed(&self) -> (r: bool)
        ensures
            r == self.closed(),
    {
        self.is_closed_under(0)
    }

    /// Structural equality.
    pub fn same(&self, other: &Term) -> (r: bool)
        ensures
            r == (*self == *other),
        decreases *self,
    {
        match (self, other) {
            (Term::Var(i), Term::Var(j)) => *i == *j,
            (Term::Abs(a), Term::Abs(b)) => a.same(b),
            (Term::App(f, x), Term::App(g, y)) => f.same(g) && x.same(y),
            _ => false,
        }
    }
}

impl Clone for Term {
    fn clone(&self) -> (r: Self)
        ensures
            r == *self,
        decreases *self,
    {
        match self {
            Term::Var(i) => Term::Var(*i),
            Term::Abs(b) => Term::Abs(Box::new((**b).clone())),
            Term::App(f, x) => Term::App(Box::new((**f).clone()), Box::new((**x).clone())),
        }
    }
}

/// A variable with the De Bruijn index `index`.
pub fn var(index: usize) -> (r: Term)
    ensures
        r == Term::Var(index),
{
    Term::Var(index)
}

/// Wraps `body` in an abstraction.
pub fn abs(body: Term) -> (r: Term)
    ensures
        r == abs_of(body),
{
    Term::Abs(Box::new(body))
}

/// Applies `lhs` to `rhs` without reducing anything.
pub fn app(lhs: Term, rhs: Term) -> (r: Term)
    ensures
        r == app_of(lhs, rhs),
{
    Term::App(Box::new(lhs), Box::new(rhs))
}

/// The Church boolean true, `λλ2`.
pub fn tru() -> (r: Term)
    ensures
        r == tru_term(),
{
    abs(abs(Term::Var(2)))
}

/// The Church boolean false, `λλ1`, which is also the empty list.
pub fn fls() -> (r: Term)
    ensures
        r == fls_term(),
{
    abs(abs(Term::Var(1)))
}

/// The De Bruijn notation of `term`, as `lambda_calculus` writes it: `λ` before a
/// body, an index up to 15 as one hexadecimal digit, an application by
/// juxtaposition, and round brackets around an application on the right and
/// around an abstraction that is applied or an argument.
pub fn display(term: &Term) -> (r: String)
    ensures
        r@ == crate::outer::debruijn_text(*term),
{
    let outer = crate::outer::export(term);
    crate::outer::outer_debug(&outer)
}

} // verus!
