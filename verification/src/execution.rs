//! The execution of binary lambda calculus programs.

use vstd::prelude::*;
use crate::encoding::binary::{from_bits, lemma_parse_bounds, parsed};
use crate::encoding::lambda::{decode, decode_text, encode, encoded, lemma_encoded_indices};
use crate::reduction::{reduce, reduct};
use crate::term::{app, app_of, Term, MAX_SIZE};

verus! {

/// An error of an execution.
#[derive(Debug, PartialEq, Eq, Clone, Copy)]
pub enum Error {
    /// invalid program
    InvalidProgram,
    /// invalid argument
    InvalidArgument,
}

/// What a program is run on.
pub enum Input<'a> {
    /// no argument
    Nothing,
    /// an argument written as a bit string
    Bits(&'a [u8]),
    /// a byte string, to be encoded as a term
    Bytes(&'a [u8]),
}

/// What an input holds: the bytes themselves, wherever they are kept.
pub enum InputView {
    /// no argument
    Nothing,
    /// an argument written as a bit string
    Bits(Seq<u8>),
    /// a byte string, to be encoded as a term
    Bytes(Seq<u8>),
}

impl<'a> View for Input<'a> {
    type V = InputView;

    open spec fn view(&self) -> InputView {
        match *self {
            Input::Nothing => InputView::Nothing,
            Input::Bits(arg) => InputView::Bits(arg@),
            Input::Bytes(arg) => InputView::Bytes(arg@),
        }
    }
}

impl InputView {
    /// A bit string that is given is short enough for its indices to be reduced.
    pub open spec fn fits(self) -> bool {
        match self {
            InputView::Bits(arg) => arg.len() <= MAX_SIZE,
            _ => true,
        }
    }
}

/// The term that is reduced when `program` is run on `input`: the program
/// alone, or the program applied to the argument.
pub open spec fn assembled(program: Term, input: InputView) -> Result<Term, Error> {
    match input {
        InputView::Nothing => Ok(program),
        InputView::Bytes(arg) => Ok(app_of(program, encoded(arg))),
        InputView::Bits(arg) => match parsed(arg) {
            Some(a) => Ok(app_of(program, a)),
            None => Err(Error::InvalidArgument),
        },
    }
}

/// The text that a reduced term is shown as; a term that does not decode makes
/// the program invalid.
pub open spec fn shown(reduced: Term) -> Result<Seq<char>, Error> {
    match decode_text(reduced) {
        Ok(text) => Ok(text),
        Err(_) => Err(Error::InvalidProgram),
    }
}

/// What running the program `program` on `input` gives.
pub open spec fn run_text(program: Seq<u8>, input: InputView) -> Result<Seq<char>, Error> {
    match parsed(program) {
        None => Err(Error::InvalidProgram),
        Some(p) => match assembled(p, input) {
            Err(e) => Err(e),
            Ok(t) => shown(reduct(t, 0)),
        },
    }
}

/// Builds the term to reduce from a program and its input.
pub fn assemble(program: Term, input: Input) -> (r: Result<Term, Error>)
    requires
        program.indices_within(MAX_SIZE as nat),
        input@.fits(),
    ensures
        r == assembled(program, input@),
        r matches Ok(t) ==> t.indices_within(MAX_SIZE as nat),
{
    match input {
        Input::Nothing => Ok(program),
        Input::Bytes(arg) => {
            proof {
                lemma_encoded_indices(arg@);
            }
            Ok(app(program, encode(arg)))
        },
        Input::Bits(arg) => {
            proof {
                lemma_parse_bounds(arg@, 0);
            }
            match from_bits(arg) {
                Ok(a) => {
                    proof {
                        a.lemma_indices_within_more(arg@.len(), MAX_SIZE as nat);
                    }
                    Ok(app(program, a))
                },
                Err(_) => Err(Error::InvalidArgument),
            }
        },
    }
}

/// Decodes a reduced term as the text of a run.
pub fn show(reduced: Term) -> (r: Result<String, Error>)
    ensures
        match r {
            Ok(text) => shown(reduced) == Ok::<Seq<char>, Error>(text@),
            Err(e) => shown(reduced) == Err::<Seq<char>, Error>(e),
        },
{
    match decode(reduced) {
        Ok(text) => Ok(text),
        Err(_) => Err(Error::InvalidProgram),
    }
}

/// Runs a program, written as a bit string, on an input: parses it, applies it
/// to the argument if there is one, reduces the term in normal order without a
/// limit of its own, and decodes what is left.
pub fn run(blc_program: &[u8], input: Input) -> (r: Result<String, Error>)
    requires
        blc_program@.len() <= MAX_SIZE,
        input@.fits(),
    ensures
        match r {
            Ok(text) => run_text(blc_program@, input@) == Ok::<Seq<char>, Error>(text@),
            Err(e) => run_text(blc_program@, input@) == Err::<Seq<char>, Error>(e),
        },
{
    let program = match from_bits(blc_program) {
        Ok(p) => p,
        Err(_) => {
            return Err(Error::InvalidProgram);
        },
    };
    proof {
        program.lemma_indices_within_more(blc_program@.len(), MAX_SIZE as nat);
    }
    match assemble(program, input) {
        Ok(term) => show(reduce(term, 0)),
        Err(e) => Err(e),
    }
}

/// A run is a function of the program and the input: the same bytes as
/// program on the same bytes as input give the same result, whatever slices
/// hold them.
pub proof fn lemma_run_deterministic(program: &[u8], input: Input, again: &[u8], same: Input)
    requires
        program@ == again@,
        input@ == same@,
    ensures
        run_text(program@, input@) == run_text(again@, same@),
{
}

} // verus!
