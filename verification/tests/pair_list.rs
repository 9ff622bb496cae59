use blc::pair_list::{
    head_ref, is_list, is_pair, last_ref, listify_terms, pop, push, snd_ref, tail, uncons,
    uncons_mut, uncons_ref, unpair_ref, vectorize_list, ListError,
};
use blc::term::Term::Var;
use blc::term::{abs, app, fls, tru, Term};

fn cons(head: Term, tail: Term) -> Term {
    abs(app(app(Var(1), head), tail))
}

#[test]
fn a_pair_is_a_binder_over_its_variable_applied_twice() {
    assert!(is_pair(&cons(Var(5), Var(6))));
    assert!(!is_pair(&fls()));
    assert!(!is_pair(&Var(1)));
    assert!(!is_pair(&app(app(Var(1), Var(5)), Var(6))));
    assert!(!is_pair(&abs(app(app(Var(2), Var(5)), Var(6)))));
    assert!(!is_pair(&abs(app(Var(1), Var(5)))));
    assert!(!is_pair(&abs(abs(app(app(Var(1), Var(5)), Var(6))))));
}

#[test]
fn the_parts_of_a_pair() {
    let p = cons(Var(5), Var(6));
    assert_eq!(unpair_ref(&p), Ok((&Var(5), &Var(6))));
    assert_eq!(uncons_ref(&p), Ok((&Var(5), &Var(6))));
    assert_eq!(head_ref(&p), Ok(&Var(5)));
    assert_eq!(snd_ref(&p), Ok(&Var(6)));
    assert_eq!(unpair_ref(&tru()), Err(ListError::NotAList));
    assert_eq!(uncons_ref(&Var(2)), Err(ListError::NotAList));
    assert_eq!(head_ref(&fls()), Err(ListError::NotAList));
    assert_eq!(snd_ref(&fls()), Err(ListError::NotAList));
}

#[test]
fn the_parts_of_a_pair_held_for_writing() {
    let mut p = cons(Var(5), Var(6));
    assert_eq!(uncons_mut(&mut p), Ok((&Var(5), &Var(6))));
    assert_eq!(p, cons(Var(5), Var(6)));
    let mut v = Var(1);
    assert_eq!(uncons_mut(&mut v), Err(ListError::NotAList));
    assert_eq!(v, Var(1));
}

#[test]
fn the_end_of_a_chain() {
    assert_eq!(last_ref(&cons(Var(5), Var(6))), Ok(&Var(6)));
    assert_eq!(last_ref(&cons(Var(5), cons(Var(6), Var(7)))), Ok(&Var(7)));
    assert_eq!(last_ref(&cons(Var(5), cons(Var(6), fls()))), Ok(&fls()));
    assert_eq!(last_ref(&fls()), Err(ListError::NotAList));
}

#[test]
fn a_list_ends_in_the_empty_list() {
    assert!(is_list(&cons(Var(5), fls())));
    assert!(is_list(&cons(Var(5), cons(Var(6), fls()))));
    assert!(!is_list(&cons(Var(5), Var(6))));
    assert!(!is_list(&cons(Var(5), tru())));
    assert!(!is_list(&fls()));
    assert!(!is_list(&Var(1)));
}

#[test]
fn head_and_tail_of_a_list() {
    let l = cons(Var(5), cons(Var(6), fls()));
    assert_eq!(uncons(l), Ok((Var(5), cons(Var(6), fls()))));
    assert_eq!(tail(cons(Var(5), fls())), Ok(fls()));
    assert_eq!(uncons(cons(Var(5), Var(6))), Err(ListError::NotAList));
    assert_eq!(tail(cons(Var(5), Var(6))), Err(ListError::NotAList));
    assert_eq!(uncons(fls()), Err(ListError::NotAList));
    assert_eq!(tail(fls()), Err(ListError::NotAList));
}

#[test]
fn push_puts_a_term_in_front() {
    assert_eq!(push(fls(), Var(5)), Ok(cons(Var(5), fls())));
    assert_eq!(push(cons(Var(6), fls()), Var(5)), Ok(cons(Var(5), cons(Var(6), fls()))));
    assert_eq!(push(Var(1), Var(5)), Err(ListError::NotAList));
    assert_eq!(push(cons(Var(6), Var(7)), Var(5)), Err(ListError::NotAList));
    assert_eq!(push(tru(), Var(5)), Err(ListError::NotAList));
}

#[test]
fn head_and_tail_of_what_push_built() {
    let list = cons(Var(6), fls());
    let built = push(cons(Var(6), fls()), Var(5)).unwrap();
    assert_eq!(head_ref(&built), Ok(&Var(5)));
    assert_eq!(tail(built), Ok(list));
    let built = push(fls(), tru()).unwrap();
    assert_eq!(head_ref(&built), Ok(&tru()));
    assert_eq!(tail(built), Ok(fls()));
}

#[test]
fn pop_takes_the_head_off() {
    let mut l = cons(Var(5), cons(Var(6), fls()));
    assert_eq!(pop(&mut l), Ok(Var(5)));
    assert_eq!(l, cons(Var(6), fls()));
    assert_eq!(pop(&mut l), Ok(Var(6)));
    assert_eq!(l, fls());
    assert_eq!(pop(&mut l), Err(ListError::NotAList));
    assert_eq!(l, fls());
    let mut v = Var(3);
    assert_eq!(pop(&mut v), Err(ListError::NotAList));
    assert_eq!(v, Var(3));
}

#[test]
fn the_list_of_terms() {
    assert_eq!(listify_terms(vec![]), fls());
    assert_eq!(listify_terms(vec![Var(5)]), cons(Var(5), fls()));
    assert_eq!(
        listify_terms(vec![Var(5), tru(), Var(7)]),
        cons(Var(5), cons(tru(), cons(Var(7), fls())))
    );
}

#[test]
fn the_terms_of_a_list() {
    assert_eq!(vectorize_list(fls()), Vec::<Term>::new());
    assert_eq!(vectorize_list(Var(1)), Vec::<Term>::new());
    assert_eq!(vectorize_list(cons(Var(5), cons(tru(), fls()))), vec![Var(5), tru()]);
    assert_eq!(vectorize_list(cons(Var(5), cons(tru(), Var(9)))), vec![Var(5), tru()]);
}

#[test]
fn terms_come_back_from_their_list() {
    let terms = vec![Var(1), fls(), cons(Var(2), fls()), abs(Var(1)), app(Var(1), Var(2))];
    assert_eq!(vectorize_list(listify_terms(terms.clone())), terms);
    assert_eq!(vectorize_list(listify_terms(vec![])), Vec::<Term>::new());
}
