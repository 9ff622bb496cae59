//! The lambda encoding of byte strings.
//!
//! A bit is a Church boolean, `λλ2` for 0 and `λλ1` for 1. A byte is the list of
//! its eight bits, the bit that weighs most first, and a byte string is the list
//! of its bytes.

use vstd::prelude::*;
use vstd::string::*;
use crate::encoding::binary::{bit_char, Error, ONE, ZERO};
use crate::outer::debruijn_text;
use crate::pair_list::{
    fst_of,
    head_ref,
    heads_of,
    is_list,
    is_list_term,
    is_pair_term,
    listify_terms,
    list_of,
    snd_of,
    tail,
    uncons,
    vectorize_list,
    lemma_parts_smaller,
};
use crate::term::{display, fls, fls_term, tru, tru_term, Term};

verus! {

/// `String::push` appends the character to the string.
pub assume_specification[ std::string::String::push ](s: &mut String, ch: char)
    ensures
        final(s)@ == old(s)@.push(ch),
;

/// The term of the bit at place `k` of the byte `b`.
pub open spec fn encoded_bit(b: u8, k: int) -> Term {
    if bit_char(b, k) == ONE {
        fls_term()
    } else {
        tru_term()
    }
}

/// The term of a byte: the list of its eight bits.
pub open spec fn encoded_byte(b: u8) -> Term {
    list_of(Seq::new(8, |k: int| encoded_bit(b, k)))
}

/// The term of a byte string: the list of its bytes.
pub open spec fn encoded(bytes: Seq<u8>) -> Term {
    list_of(Seq::new(bytes.len(), |i: int| encoded_byte(bytes[i])))
}

/// What a term counts as a digit of a byte read back: `λλ1` counts 0 and `λλ2`
/// counts 1; no other term is a digit.
pub open spec fn digit_of(t: Term) -> Option<nat> {
    if t == fls_term() {
        Some(0nat)
    } else if t == tru_term() {
        Some(1nat)
    } else {
        None
    }
}

/// The number that the digits of `s` write in base two, the first digit
/// weighing most; nothing where a term of `s` is no digit.
pub open spec fn digits_value(s: Seq<Term>) -> Option<nat>
    decreases s.len(),
{
    if s.len() == 0 {
        Some(0nat)
    } else {
        match (digits_value(s.drop_last()), digit_of(s.last())) {
            (Some(v), Some(d)) => Some(2 * v + d),
            _ => None,
        }
    }
}

/// The byte that a list of bit terms stands for: the complement of the number
/// that its digits write, where that number fits in a byte.
pub open spec fn byte_of(s: Seq<Term>) -> Option<u8> {
    match digits_value(s) {
        Some(v) => if v <= 255 {
            Some((255 - v) as u8)
        } else {
            None
        },
        None => None,
    }
}

/// The text `rest` behind the character `c`, or the error that `rest` is.
pub open spec fn prepend(c: char, rest: Result<Seq<char>, Error>) -> Result<Seq<char>, Error> {
    match rest {
        Ok(s) => Ok(seq![c] + s),
        Err(e) => Err(e),
    }
}

/// The text that a term decodes to.
///
/// The empty list is the empty text. A list whose head is a list gives the
/// byte of that head as one character, then the text of its tail. A list whose
/// head is `λλ1` or `λλ2` gives the character `1` or `0`, then the text of its
/// tail. Any other term gives its De Bruijn notation in round brackets.
pub open spec fn decode_text(t: Term) -> Result<Seq<char>, Error>
    decreases t.size(),
{
    if t == fls_term() {
        Ok(Seq::empty())
    } else if is_list_term(t) && is_list_term(fst_of(t)) {
        proof {
            lemma_parts_smaller(t);
        }
        match byte_of(heads_of(fst_of(t))) {
            Some(b) => prepend(b as char, decode_text(snd_of(t))),
            None => Err(Error::NotATerm),
        }
    } else if is_pair_term(t) && (fst_of(t) == fls_term() || fst_of(t) == tru_term()) {
        proof {
            lemma_parts_smaller(t);
        }
        if is_list_term(t) {
            prepend(
                if fst_of(t) == fls_term() {
                    '1'
                } else {
                    '0'
                },
                decode_text(snd_of(t)),
            )
        } else {
            Err(Error::NotATerm)
        }
    } else {
        Ok(seq!['('] + debruijn_text(t) + seq![')'])
    }
}

/// What the first digits of a list write bounds what all of them write, and a
/// term among them that is no digit leaves the whole without a value.
proof fn lemma_digits_prefix(s: Seq<Term>, i: int)
    requires
        0 <= i <= s.len(),
    ensures
        match digits_value(s.take(i)) {
            Some(v) => match digits_value(s) {
                Some(w) => v <= w,
                None => true,
            },
            None => digits_value(s).is_none(),
        },
    decreases s.len(),
{
    if i == s.len() {
        assert(s.take(i) =~= s);
    } else {
        assert(s.drop_last().take(i) =~= s.take(i));
        lemma_digits_prefix(s.drop_last(), i);
    }
}

/// The term of one bit, written as the character `0` or `1`.
fn encode_bit(bit: u8) -> (r: Term)
    requires
        bit == ZERO || bit == ONE,
    ensures
        r == if bit == ONE {
            fls_term()
        } else {
            tru_term()
        },
{
    if bit == ONE {
        fls()
    } else {
        tru()
    }
}

/// The term of one byte.
fn encode_byte(byte: u8) -> (r: Term)
    ensures
        r == encoded_byte(byte),
{
    let mut bits: Vec<Term> = Vec::with_capacity(8);
    let mut k: usize = 0;
    let mut w: u8 = 128;
    while k < 8
        invariant
            k <= 8,
            k < 8 ==> w == crate::encoding::binary::weight(k as int),
            bits@.len() == k,
            forall|i: int| 0 <= i < k ==> bits@[i] == encoded_bit(byte, i),
        decreases 8 - k,
    {
        let bit: u8 = if (byte / w) % 2 == 1 {
            ONE
        } else {
            ZERO
        };
        bits.push(encode_bit(bit));
        w = w / 2;
        k += 1;
    }
    assert(bits@ =~= Seq::new(8, |k: int| encoded_bit(byte, k)));
    listify_terms(bits)
}

/// Encodes a byte string as a term: the list of its bytes, each the list of its
/// eight bits. The empty string is the empty list, `λλ1`.
pub fn encode(input: &[u8]) -> (r: Term)
    ensures
        r == encoded(input@),
        r.closed(),
{
    proof {
        lemma_encoded_closed(input@);
    }
    let mut terms: Vec<Term> = Vec::with_capacity(input.len());
    let mut i: usize = 0;
    while i < input.len()
        invariant
            i <= input.len(),
            terms@.len() == i,
            forall|j: int| 0 <= j < i ==> terms@[j] == encoded_byte(input@[j]),
        decreases input.len() - i,
    {
        terms.push(encode_byte(input[i]));
        i += 1;
    }
    assert(terms@ =~= Seq::new(input@.len(), |i: int| encoded_byte(input@[i])));
    listify_terms(terms)
}

/// Reads a byte back from the list of its bits.
fn decode_byte(encoded_byte: Term) -> (r: Result<u8, Error>)
    ensures
        r == match byte_of(heads_of(encoded_byte)) {
            Some(b) => Ok::<u8, Error>(b),
            None => Err::<u8, Error>(Error::NotATerm),
        },
{
    let bits: Vec<Term> = vectorize_list(encoded_byte);
    let zero = fls();
    let one = tru();
    let mut value: u8 = 0;
    let mut i: usize = 0;
    while i < bits.len()
        invariant
            i <= bits.len(),
            bits@ == heads_of(encoded_byte),
            zero == fls_term(),
            one == tru_term(),
            digits_value(bits@.take(i as int)) == Some(value as nat),
        decreases bits.len() - i,
    {
        proof {
            assert(bits@.take(i + 1).drop_last() =~= bits@.take(i as int));
            assert(bits@.take(i + 1).last() == bits@[i as int]);
            lemma_digits_prefix(bits@, i + 1);
        }
        let digit: u8 = if bits[i].same(&zero) {
            0
        } else if bits[i].same(&one) {
            1
        } else {
            return Err(Error::NotATerm);
        };
        if value > 127 {
            return Err(Error::NotATerm);
        }
        value = 2 * value + digit;
        i += 1;
    }
    assert(bits@.take(i as int) =~= bits@);
    Ok(255 - value)
}

/// Decodes a term as text.
///
/// A list of bytes gives the characters of those bytes. A list of bits gives
/// the characters `0` and `1`. A term that is neither is given in De Bruijn
/// notation, in round brackets. A byte whose bits cannot be read, and a chain of
/// bits that no empty list closes, are errors.
pub fn decode(term: Term) -> (r: Result<String, Error>)
    ensures
        match r {
            Ok(text) => decode_text(term) == Ok::<Seq<char>, Error>(text@),
            Err(e) => decode_text(term) == Err::<Seq<char>, Error>(e),
        },
{
    let mut out = String::new();
    let mut rest = term;
    loop
        invariant
            decode_text(term) == behind(out@, decode_text(rest)),
        decreases rest.size(),
    {
        proof {
            lemma_parts_smaller(rest);
        }
        if rest.same(&fls()) {
            assert(out@ + Seq::<char>::empty() =~= out@);
            return Ok(out);
        }
        let head_is_list: bool = match head_ref(&rest) {
            Ok(head) => is_list(head),
            Err(_) => false,
        };
        if head_is_list && is_list(&rest) {
            match uncons(rest) {
                Ok((head, tail)) => {
                    match decode_byte(head) {
                        Ok(byte) => {
                            proof {
                                lemma_behind_prepend(out@, byte as char, decode_text(tail));
                            }
                            out.push(byte as char);
                            rest = tail;
                        },
                        Err(e) => {
                            return Err(e);
                        },
                    }
                },
                Err(_) => {
                    return Err(Error::NotATerm);
                },
            }
        } else {
            let bit: Option<char> = match head_ref(&rest) {
                Ok(head) => if head.same(&fls()) {
                    Some('1')
                } else if head.same(&tru()) {
                    Some('0')
                } else {
                    None
                },
                Err(_) => None,
            };
            match bit {
                Some(c) => match tail(rest) {
                    Ok(next) => {
                        proof {
                            lemma_behind_prepend(out@, c, decode_text(next));
                        }
                        out.push(c);
                        rest = next;
                    },
                    Err(_) => {
                        return Err(Error::NotATerm);
                    },
                },
                None => {
                    let notation = display(&rest);
                    let ghost before = out@;
                    out.push('(');
                    out.append(notation.as_str());
                    out.push(')');
                    assert(out@ =~= before + (seq!['('] + debruijn_text(rest) + seq![')']));
                    return Ok(out);
                },
            }
        }
    }
}

/// The text `rest` behind the text `before`, or the error that `rest` is.
pub open spec fn behind(before: Seq<char>, rest: Result<Seq<char>, Error>) -> Result<
    Seq<char>,
    Error,
> {
    match rest {
        Ok(s) => Ok(before + s),
        Err(e) => Err(e),
    }
}

/// A character may be counted to the text before it or to the text behind it.
proof fn lemma_behind_prepend(before: Seq<char>, c: char, rest: Result<Seq<char>, Error>)
    ensures
        behind(before, prepend(c, rest)) == behind(before.push(c), rest),
{
    match rest {
        Ok(s) => {
            assert(before + (seq![c] + s) =~= before.push(c) + s);
        },
        Err(_) => {},
    }
}

/// The characters of a byte string, each byte taken as the code point of its
/// value.
pub open spec fn latin1(bytes: Seq<u8>) -> Seq<char> {
    Seq::new(bytes.len(), |i: int| bytes[i] as char)
}

/// The bit terms of a byte, the bit that weighs most first.
pub open spec fn bit_terms(b: u8) -> Seq<Term> {
    Seq::new(8, |k: int| encoded_bit(b, k))
}

/// What the first `n` bit terms of the byte `b` write as digits.
spec fn digits_prefix(b: u8, n: nat) -> nat
    decreases n,
{
    if n == 0 {
        0
    } else {
        2 * digits_prefix(b, (n - 1) as nat) + if bit_char(b, n - 1) == ONE {
            0nat
        } else {
            1nat
        }
    }
}

proof fn lemma_digits_of_bit_terms(b: u8, n: nat)
    requires
        n <= 8,
    ensures
        digits_value(bit_terms(b).take(n as int)) == Some(digits_prefix(b, n)),
    decreases n,
{
    let s = bit_terms(b).take(n as int);
    if n > 0 {
        lemma_digits_of_bit_terms(b, (n - 1) as nat);
        assert(s.drop_last() =~= bit_terms(b).take(n - 1));
    }
}

/// The bit terms of a byte are read back as that byte.
pub proof fn lemma_byte_of_bit_terms(b: u8)
    ensures
        byte_of(bit_terms(b)) == Some(b),
{
    lemma_digits_of_bit_terms(b, 8);
    assert(bit_terms(b).take(8) =~= bit_terms(b));
    reveal_with_fuel(digits_prefix, 9);
    crate::encoding::binary::lemma_byte_of_bits(b);
    assert(digits_prefix(b, 8) == 255 - b);
}

/// The lambda round trip: the term of a byte string decodes to the characters
/// of its bytes.
pub proof fn lemma_decode_encoded(bytes: Seq<u8>)
    ensures
        decode_text(encoded(bytes)) == Ok::<Seq<char>, Error>(latin1(bytes)),
    decreases bytes.len(),
{
    let terms = Seq::new(bytes.len(), |i: int| encoded_byte(bytes[i]));
    if bytes.len() == 0 {
        assert(latin1(bytes) =~= Seq::<char>::empty());
    } else {
        let rest = bytes.drop_first();
        let rest_terms = Seq::new(rest.len(), |i: int| encoded_byte(rest[i]));
        assert(terms.drop_first() =~= rest_terms);
        let head = encoded_byte(bytes[0]);
        crate::pair_list::lemma_pair_parts(head, encoded(rest));
        crate::pair_list::lemma_heads_of_list(terms);
        crate::pair_list::lemma_heads_of_list(bit_terms(bytes[0]));
        lemma_byte_of_bit_terms(bytes[0]);
        lemma_decode_encoded(rest);
        assert(seq![bytes[0] as char] + latin1(rest) =~= latin1(bytes));
    }
}

/// A chain of pairs is closed where its parts are, and its indices stay within
/// a bound of 1 or more that holds of its parts.
proof fn lemma_chain_closed(s: Seq<Term>, end: Term, bound: nat)
    requires
        bound >= 1,
        end.closed() && end.indices_within(bound),
        forall|i: int| 0 <= i < s.len() ==> (#[trigger] s[i]).closed() && s[i].indices_within(bound),
    ensures
        crate::pair_list::chain_of(s, end).closed(),
        crate::pair_list::chain_of(s, end).indices_within(bound),
    decreases s.len(),
{
    reveal_with_fuel(Term::closed_under, 5);
    reveal_with_fuel(Term::indices_within, 5);
    if s.len() > 0 {
        let rest = s.drop_first();
        assert forall|i: int| 0 <= i < rest.len() implies (#[trigger] rest[i]).closed()
            && rest[i].indices_within(bound) by {
            assert(rest[i] == s[i + 1]);
        }
        lemma_chain_closed(rest, end, bound);
        s.first().lemma_closed_deeper(0, 1);
        crate::pair_list::chain_of(rest, end).lemma_closed_deeper(0, 1);
    }
}

/// The term of a byte string is closed, and its indices are 1 and 2.
pub proof fn lemma_encoded_closed(bytes: Seq<u8>)
    ensures
        encoded(bytes).closed(),
        encoded(bytes).indices_within(2),
{
    reveal_with_fuel(Term::closed_under, 5);
    reveal_with_fuel(Term::indices_within, 5);
    let terms = Seq::new(bytes.len(), |i: int| encoded_byte(bytes[i]));
    assert forall|i: int| 0 <= i < terms.len() implies (#[trigger] terms[i]).closed()
        && terms[i].indices_within(2) by {
        lemma_chain_closed(bit_terms(bytes[i]), fls_term(), 2);
    }
    lemma_chain_closed(terms, fls_term(), 2);
}

/// The indices of the term of a byte string are small enough to be reduced.
pub proof fn lemma_encoded_indices(bytes: Seq<u8>)
    ensures
        encoded(bytes).indices_within(crate::term::MAX_SIZE as nat),
{
    lemma_encoded_closed(bytes);
    encoded(bytes).lemma_indices_within_more(2, crate::term::MAX_SIZE as nat);
}

} // verus!
