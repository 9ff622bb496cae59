//! Church pairs and the lists that are made of them.
//!
//! A pair of `a` and `b` is the term `λ.1 a b`. A list is a pair whose second
//! part is a list or the term `λλ1`, which closes every list and is itself the
//! empty one.

use vstd::prelude::*;
use crate::term::{abs, abs_of, app, app_of, fls, fls_term, Term};

verus! {

/// The error of a list operation on a term of another shape.
#[derive(Debug, PartialEq, Eq, Clone, Copy)]
pub enum ListError {
    /// the term is not a list
    NotAList,
}

/// The pair of `a` and `b`.
pub open spec fn pair_of(a: Term, b: Term) -> Term {
    abs_of(app_of(app_of(Term::Var(1), a), b))
}

/// The two parts of a pair; nothing for a term that is no pair.
pub open spec fn unpaired(t: Term) -> Option<(Term, Term)> {
    match t {
        Term::Abs(body) => match *body {
            Term::App(applied, b) => match *applied {
                Term::App(selector, a) => if *selector == Term::Var(1) {
                    Some((*a, *b))
                } else {
                    None
                },
                _ => None,
            },
            _ => None,
        },
        _ => None,
    }
}

/// The term is a pair.
pub open spec fn is_pair_term(t: Term) -> bool {
    unpaired(t).is_some()
}

/// The first part of a pair.
pub open spec fn fst_of(t: Term) -> Term
    recommends
        is_pair_term(t),
{
    unpaired(t).unwrap().0
}

/// The second part of a pair.
pub open spec fn snd_of(t: Term) -> Term
    recommends
        is_pair_term(t),
{
    unpaired(t).unwrap().1
}

/// Both parts of a pair are smaller than the pair.
pub proof fn lemma_parts_smaller(t: Term)
    ensures
        match unpaired(t) {
            Some((a, b)) => a.size() < t.size() && b.size() < t.size() && t == pair_of(a, b),
            None => true,
        },
{
    reveal_with_fuel(Term::size, 4);
}

/// The second part of the last pair in the chain of pairs that starts at `t`.
pub open spec fn last_of(t: Term) -> Term
    recommends
        is_pair_term(t),
    decreases t.size(),
{
    match unpaired(t) {
        Some((_, b)) => if is_pair_term(b) {
            proof {
                lemma_parts_smaller(t);
            }
            last_of(b)
        } else {
            b
        },
        None => t,
    }
}

/// The term is a list of one element or more: a chain of pairs that `λλ1` closes.
pub open spec fn is_list_term(t: Term) -> bool {
    is_pair_term(t) && last_of(t) == fls_term()
}

/// The first parts of the pairs in the chain that starts at `t`, in their order.
pub open spec fn heads_of(t: Term) -> Seq<Term>
    decreases t.size(),
{
    match unpaired(t) {
        Some((a, b)) => {
            proof {
                lemma_parts_smaller(t);
            }
            seq![a] + heads_of(b)
        },
        None => Seq::empty(),
    }
}

/// The chain of pairs that holds the terms of `s` as first parts and ends in
/// `end`.
pub open spec fn chain_of(s: Seq<Term>, end: Term) -> Term
    decreases s.len(),
{
    if s.len() == 0 {
        end
    } else {
        pair_of(s.first(), chain_of(s.drop_first(), end))
    }
}

/// The list of the terms in `s`; the empty list is `λλ1`.
pub open spec fn list_of(s: Seq<Term>) -> Term {
    chain_of(s, fls_term())
}

/// The two parts of a pair, by reference.
pub fn unpair_ref(term: &Term) -> (r: Result<(&Term, &Term), ListError>)
    ensures
        match r {
            Ok((a, b)) => unpaired(*term) == Some((*a, *b)),
            Err(e) => unpaired(*term).is_none() && e == ListError::NotAList,
        },
{
    match term {
        Term::Abs(body) => match &**body {
            Term::App(applied, b) => match &**applied {
                Term::App(selector, a) => match &**selector {
                    Term::Var(i) => if *i == 1 {
                        Ok((&**a, &**b))
                    } else {
                        Err(ListError::NotAList)
                    },
                    _ => Err(ListError::NotAList),
                },
                _ => Err(ListError::NotAList),
            },
            _ => Err(ListError::NotAList),
        },
        _ => Err(ListError::NotAList),
    }
}

/// The two parts of a pair, by value.
fn unpair(term: Term) -> (r: Result<(Term, Term), ListError>)
    ensures
        match r {
            Ok((a, b)) => unpaired(term) == Some((a, b)),
            Err(e) => unpaired(term).is_none() && e == ListError::NotAList,
        },
{
    match term {
        Term::Abs(body) => match *body {
            Term::App(applied, b) => match *applied {
                Term::App(selector, a) => match *selector {
                    Term::Var(i) => if i == 1 {
                        Ok((*a, *b))
                    } else {
                        Err(ListError::NotAList)
                    },
                    _ => Err(ListError::NotAList),
                },
                _ => Err(ListError::NotAList),
            },
            _ => Err(ListError::NotAList),
        },
        _ => Err(ListError::NotAList),
    }
}

/// Whether the term is a pair.
pub fn is_pair(term: &Term) -> (r: bool)
    ensures
        r == is_pair_term(*term),
{
    unpair_ref(term).is_ok()
}

/// The second part of a pair.
pub fn snd_ref(term: &Term) -> (r: Result<&Term, ListError>)
    ensures
        match r {
            Ok(b) => is_pair_term(*term) && *b == snd_of(*term),
            Err(e) => !is_pair_term(*term) && e == ListError::NotAList,
        },
{
    match unpair_ref(term) {
        Ok((_, b)) => Ok(b),
        Err(e) => Err(e),
    }
}

/// The second part of the last pair in the chain that starts at a pair.
pub fn last_ref(term: &Term) -> (r: Result<&Term, ListError>)
    ensures
        match r {
            Ok(end) => is_pair_term(*term) && *end == last_of(*term),
            Err(e) => !is_pair_term(*term) && e == ListError::NotAList,
        },
{
    match unpair_ref(term) {
        Err(e) => Err(e),
        Ok((_, second)) => {
            let mut candidate: &Term = second;
            loop
                invariant
                    is_pair_term(*term),
                    last_of(*term) == if is_pair_term(*candidate) {
                        last_of(*candidate)
                    } else {
                        *candidate
                    },
                ensures
                    !is_pair_term(*candidate),
                decreases candidate.size(),
            {
                proof {
                    lemma_parts_smaller(*candidate);
                }
                match unpair_ref(candidate) {
                    Ok((_, next)) => {
                        candidate = next;
                    },
                    Err(_) => {
                        break ;
                    },
                }
            }
            Ok(candidate)
        },
    }
}

/// Whether the term is a list of one element or more.
pub fn is_list(term: &Term) -> (r: bool)
    ensures
        r == is_list_term(*term),
{
    match last_ref(term) {
        Ok(end) => end.same(&fls()),
        Err(_) => false,
    }
}

/// The head and the tail of a pair, by reference.
pub fn uncons_ref(term: &Term) -> (r: Result<(&Term, &Term), ListError>)
    ensures
        match r {
            Ok((a, b)) => unpaired(*term) == Some((*a, *b)),
            Err(e) => unpaired(*term).is_none() && e == ListError::NotAList,
        },
{
    unpair_ref(term)
}

/// The head and the tail of a pair that is held for writing; the pair is left as
/// it is.
pub fn uncons_mut(term: &mut Term) -> (r: Result<(&Term, &Term), ListError>)
    ensures
        *final(term) == *old(term),
        match r {
            Ok((a, b)) => unpaired(*old(term)) == Some((*a, *b)),
            Err(e) => unpaired(*old(term)).is_none() && e == ListError::NotAList,
        },
{
    unpair_ref(term)
}

/// The head of a pair.
pub fn head_ref(term: &Term) -> (r: Result<&Term, ListError>)
    ensures
        match r {
            Ok(a) => is_pair_term(*term) && *a == fst_of(*term),
            Err(e) => !is_pair_term(*term) && e == ListError::NotAList,
        },
{
    match uncons_ref(term) {
        Ok((a, _)) => Ok(a),
        Err(e) => Err(e),
    }
}

/// The head and the tail of a list of one element or more.
pub fn uncons(term: Term) -> (r: Result<(Term, Term), ListError>)
    ensures
        r == if is_list_term(term) {
            Ok::<(Term, Term), ListError>((fst_of(term), snd_of(term)))
        } else {
            Err::<(Term, Term), ListError>(ListError::NotAList)
        },
{
    if !is_list(&term) {
        Err(ListError::NotAList)
    } else {
        unpair(term)
    }
}

/// The tail of a list of one element or more.
pub fn tail(term: Term) -> (r: Result<Term, ListError>)
    ensures
        r == if is_list_term(term) {
            Ok::<Term, ListError>(snd_of(term))
        } else {
            Err::<Term, ListError>(ListError::NotAList)
        },
{
    match uncons(term) {
        Ok((_, b)) => Ok(b),
        Err(e) => Err(e),
    }
}

/// Puts `term` in front of `list`, which is a list or the empty one.
pub fn push(list: Term, term: Term) -> (r: Result<Term, ListError>)
    ensures
        r == if is_list_term(list) || list == fls_term() {
            Ok::<Term, ListError>(pair_of(term, list))
        } else {
            Err::<Term, ListError>(ListError::NotAList)
        },
{
    if !is_list(&list) && !list.same(&fls()) {
        Err(ListError::NotAList)
    } else {
        Ok(abs(app(app(Term::Var(1), term), list)))
    }
}

/// Takes the first part off a pair and leaves the second in its place. A term
/// that is no pair is left as it is.
pub fn pop(term: &mut Term) -> (r: Result<Term, ListError>)
    ensures
        match r {
            Ok(a) => unpaired(*old(term)) == Some((a, *final(term))),
            Err(e) => unpaired(*old(term)).is_none() && *final(term) == *old(term) && e
                == ListError::NotAList,
        },
{
    if !is_pair(term) {
        return Err(ListError::NotAList);
    }
    let mut taken = Term::Var(0);
    core::mem::swap(term, &mut taken);
    match unpair(taken) {
        Ok((a, b)) => {
            *term = b;
            Ok(a)
        },
        Err(e) => Err(e),
    }
}

/// The list of `terms`.
pub fn listify_terms(terms: Vec<Term>) -> (r: Term)
    ensures
        r == list_of(terms@),
{
    let mut rest = terms;
    let mut ret = fls();
    while rest.len() > 0
        invariant
            list_of(terms@) == chain_of(rest@, ret),
        decreases rest.len(),
    {
        proof {
            lemma_chain_of_last(rest@, ret);
        }
        let term = rest.pop().unwrap();
        ret = abs(app(app(Term::Var(1), term), ret));
    }
    ret
}

/// The first parts of the pairs in the chain that starts at `list`: the elements
/// of a list, and nothing for a term that is no pair.
pub fn vectorize_list(list: Term) -> (r: Vec<Term>)
    ensures
        r@ == heads_of(list),
{
    let mut rest = list;
    let mut ret: Vec<Term> = Vec::new();
    loop
        invariant
            heads_of(list) == ret@ + heads_of(rest),
        ensures
            !is_pair_term(rest),
        decreases rest.size(),
    {
        proof {
            lemma_parts_smaller(rest);
        }
        match pop(&mut rest) {
            Ok(elem) => {
                assert(ret@.push(elem) + heads_of(rest) =~= ret@ + (seq![elem] + heads_of(rest)));
                ret.push(elem);
            },
            Err(_) => {
                break ;
            },
        }
    }
    assert(ret@ + heads_of(rest) =~= ret@);
    ret
}

/// A chain with one term more at its back is the chain of the others that ends
/// in the pair of that term and the end.
pub proof fn lemma_chain_of_last(s: Seq<Term>, end: Term)
    requires
        s.len() > 0,
    ensures
        chain_of(s, end) == chain_of(s.drop_last(), pair_of(s.last(), end)),
    decreases s.len(),
{
    if s.len() == 1 {
        assert(s.drop_first() =~= Seq::<Term>::empty());
        assert(s.drop_last() =~= Seq::<Term>::empty());
    } else {
        lemma_chain_of_last(s.drop_first(), end);
        assert(s.drop_first().drop_last() =~= s.drop_last().drop_first());
    }
}

/// A pair gives back its two parts.
pub proof fn lemma_pair_parts(a: Term, b: Term)
    ensures
        unpaired(pair_of(a, b)) == Some((a, b)),
        !is_pair_term(fls_term()),
{
}

/// The head and the tail of what `push` builds are the term and the list that it
/// was given: a term in front of a list, or of the empty list, makes a list whose
/// first part is the term and whose second part is the list.
pub proof fn lemma_head_tail_of_push(list: Term, term: Term)
    requires
        is_list_term(list) || list == fls_term(),
    ensures
        is_list_term(pair_of(term, list)),
        fst_of(pair_of(term, list)) == term,
        snd_of(pair_of(term, list)) == list,
{
    lemma_pair_parts(term, list);
}

/// The elements of the list of `s` are the terms of `s`, and the list of one
/// term or more is a list.
pub proof fn lemma_heads_of_list(s: Seq<Term>)
    ensures
        heads_of(list_of(s)) == s,
        s.len() > 0 ==> is_list_term(list_of(s)),
    decreases s.len(),
{
    if s.len() == 0 {
        assert(heads_of(fls_term()) =~= s);
    } else {
        let rest = s.drop_first();
        lemma_heads_of_list(rest);
        lemma_pair_parts(s.first(), list_of(rest));
        if rest.len() > 0 {
            lemma_head_tail_of_push(list_of(rest), s.first());
        } else {
            lemma_head_tail_of_push(fls_term(), s.first());
        }
        assert(seq![s.first()] + rest =~= s);
    }
}

} // verus!
