//! The binary syntax of lambda terms.
//!
//! A term is written as a string of the ASCII characters `0` and `1`:
//! `00` and a body for an abstraction, `01` and two terms for an application,
//! and as many `1` as its index says, closed by a `0`, for a variable.

use vstd::prelude::*;
use crate::term::{abs_of, app_of, Term, MAX_SIZE};

verus! {

/// The error of a bit string that holds no term.
#[derive(Debug, PartialEq, Eq, Clone, Copy)]
pub enum Error {
    /// not a valid term
    NotATerm,
}

/// The ASCII character `0`.
pub const ZERO: u8 = 48;

/// The ASCII character `1`.
pub const ONE: u8 = 49;

/// Tab, line feed, carriage return and space may stand between two tokens.
pub open spec fn is_space(b: u8) -> bool {
    b == 9 || b == 10 || b == 13 || b == 32
}

/// The number of `1` that stand in a row from `pos` on.
pub open spec fn ones_from(s: Seq<u8>, pos: int) -> nat
    decreases s.len() - pos,
{
    if 0 <= pos < s.len() && s[pos] == ONE {
        1 + ones_from(s, pos + 1)
    } else {
        0
    }
}

/// The first term that is written in `s` from `pos` on, and the position behind
/// it. Whitespace before a token is passed over; a token is `00`, `01`, or a row
/// of `1` with the `0` that closes it.
pub open spec fn parse_at(s: Seq<u8>, pos: int) -> Option<(Term, int)>
    decreases s.len() - pos,
{
    if pos < 0 || pos >= s.len() {
        None
    } else if is_space(s[pos]) {
        parse_at(s, pos + 1)
    } else if pos + 1 >= s.len() {
        None
    } else if s[pos] == ZERO && s[pos + 1] == ZERO {
        match parse_at(s, pos + 2) {
            Some((body, end)) => Some((abs_of(body), end)),
            None => None,
        }
    } else if s[pos] == ZERO && s[pos + 1] == ONE {
        match parse_at(s, pos + 2) {
            Some((lhs, mid)) => if pos < mid <= s.len() {
                // the function is never empty and ends within the string
                match parse_at(s, mid) {
                    Some((rhs, end)) => Some((app_of(lhs, rhs), end)),
                    None => None,
                }
            } else {
                None
            },
            None => None,
        }
    } else if s[pos] == ONE {
        let n = ones_from(s, pos);
        if pos + n < s.len() && s[pos + n] == ZERO {
            Some((Term::Var(#[verifier::truncate] (n as usize)), pos + n + 1))
        } else {
            None
        }
    } else {
        None
    }
}

/// The first term that is written in `s`, if there is one.
pub open spec fn parsed(s: Seq<u8>) -> Option<Term> {
    match parse_at(s, 0) {
        Some((t, _)) => Some(t),
        None => None,
    }
}

/// The string holds the characters `0` and `1` and nothing else.
pub open spec fn is_bit_string(s: Seq<u8>) -> bool {
    forall|i: int| 0 <= i < s.len() ==> #[trigger] s[i] == ZERO || s[i] == ONE
}

/// The `count` characters `1` that write the index of a variable.
pub open spec fn ones(count: nat) -> Seq<u8> {
    Seq::new(count, |i: int| ONE)
}

/// The bit string of a term.
pub open spec fn bits_of(t: Term) -> Seq<u8>
    decreases t,
{
    match t {
        Term::Var(i) => ones(i as nat).push(ZERO),
        Term::Abs(b) => seq![ZERO, ZERO] + bits_of(*b),
        Term::App(f, x) => seq![ZERO, ONE] + bits_of(*f) + bits_of(*x),
    }
}

/// A term that parses ends behind its first two bytes and within the string; its
/// indices are positive and no larger than the string is long.
pub proof fn lemma_parse_bounds(s: Seq<u8>, pos: int)
    requires
        s.len() <= usize::MAX,
    ensures
        match parse_at(s, pos) {
            Some((t, end)) => {
                &&& 0 <= pos
                &&& pos + 2 <= end <= s.len()
                &&& t.well_formed()
                &&& t.indices_within(s.len())
            },
            None => true,
        },
    decreases s.len() - pos,
{
    if pos < 0 || pos >= s.len() {
    } else if is_space(s[pos]) {
        lemma_parse_bounds(s, pos + 1);
    } else if pos + 1 >= s.len() {
    } else if s[pos] == ZERO {
        lemma_parse_bounds(s, pos + 2);
        if s[pos + 1] == ONE {
            match parse_at(s, pos + 2) {
                Some((_, mid)) => lemma_parse_bounds(s, mid),
                None => {},
            }
        }
    } else if s[pos] == ONE {
        lemma_ones_from_bounds(s, pos);
    }
}

/// A row of `1` ends within the string.
pub proof fn lemma_ones_from_bounds(s: Seq<u8>, pos: int)
    requires
        0 <= pos <= s.len(),
    ensures
        pos + ones_from(s, pos) <= s.len(),
        forall|i: int| pos <= i < pos + ones_from(s, pos) ==> s[i] == ONE,
        pos + ones_from(s, pos) < s.len() ==> s[pos + ones_from(s, pos)] != ONE,
    decreases s.len() - pos,
{
    if pos < s.len() && s[pos] == ONE {
        lemma_ones_from_bounds(s, pos + 1);
    }
}

fn is_space_byte(b: u8) -> (r: bool)
    ensures
        r == is_space(b),
{
    b == 9 || b == 10 || b == 13 || b == 32
}

/// Parses the first term from `pos` on.
fn parse_from(input: &[u8], pos: usize) -> (r: Option<(Term, usize)>)
    requires
        pos <= input.len(),
    ensures
        match r {
            Some((t, end)) => parse_at(input@, pos as int) == Some((t, end as int)),
            None => parse_at(input@, pos as int).is_none(),
        },
    decreases input.len() - pos,
{
    let n: usize = input.len();
    let mut p: usize = pos;
    while p < n && is_space_byte(input[p])
        invariant
            n == input.len(),
            pos <= p <= n,
            parse_at(input@, p as int) == parse_at(input@, pos as int),
        decreases n - p,
    {
        p += 1;
    }
    if p >= n || n - p < 2 {
        return None;
    }
    let first: u8 = input[p];
    let second: u8 = input[p + 1];
    if first == ZERO && second == ZERO {
        match parse_from(input, p + 2) {
            Some((body, end)) => Some((Term::Abs(Box::new(body)), end)),
            None => None,
        }
    } else if first == ZERO && second == ONE {
        match parse_from(input, p + 2) {
            Some((lhs, mid)) => {
                proof {
                    lemma_parse_bounds(input@, p + 2);
                }
                match parse_from(input, mid) {
                    Some((rhs, end)) => Some((Term::App(Box::new(lhs), Box::new(rhs)), end)),
                    None => None,
                }
            },
            None => None,
        }
    } else if first == ONE {
        let mut q: usize = p;
        while q < n && input[q] == ONE
            invariant
                n == input.len(),
                p <= q <= n,
                ones_from(input@, p as int) == (q - p) + ones_from(input@, q as int),
            decreases n - q,
        {
            q += 1;
        }
        if q < n && input[q] == ZERO {
            Some((Term::Var(q - p), q + 1))
        } else {
            None
        }
    } else {
        None
    }
}

/// Parses the first term that is written in `input`. Whitespace before a token
/// is passed over, and so is whatever follows the term. The term may have free
/// variables: its indices are positive and no larger than the input is long, so
/// that many binders would close it.
pub fn from_bits(input: &[u8]) -> (r: Result<Term, Error>)
    ensures
        r == match parsed(input@) {
            Some(t) => Ok::<Term, Error>(t),
            None => Err::<Term, Error>(Error::NotATerm),
        },
        r matches Ok(t) ==> t.well_formed() && t.indices_within(input@.len()) && t.closed_under(
            input@.len(),
        ),
{
    proof {
        assert(input@.len() == input.len());
        lemma_parse_bounds(input@, 0);
        match parsed(input@) {
            Some(t) => t.lemma_closed_under_bound(input@.len(), input@.len()),
            None => {},
        }
    }
    match parse_from(input, 0) {
        Some((t, _)) => Ok(t),
        None => Err(Error::NotATerm),
    }
}

/// The bit string of a term holds the characters `0` and `1` and nothing else.
pub proof fn lemma_bits_of_is_bit_string(t: Term)
    ensures
        is_bit_string(bits_of(t)),
    decreases t,
{
    match t {
        Term::Var(_) => {},
        Term::Abs(b) => lemma_bits_of_is_bit_string(*b),
        Term::App(f, x) => {
            lemma_bits_of_is_bit_string(*f);
            lemma_bits_of_is_bit_string(*x);
        },
    }
}

/// Appends the bit string of `term` to `output`.
fn write_bits(term: &Term, output: &mut Vec<u8>)
    ensures
        final(output)@ == old(output)@ + bits_of(*term),
    decreases *term,
{
    match term {
        Term::Var(i) => {
            let mut k: usize = 0;
            while k < *i
                invariant
                    k <= *i,
                    output@ == old(output)@ + ones(k as nat),
                decreases *i - k,
            {
                output.push(ONE);
                k += 1;
                assert(output@ =~= old(output)@ + ones(k as nat));
            }
            output.push(ZERO);
            assert(output@ =~= old(output)@ + bits_of(*term));
        },
        Term::Abs(b) => {
            output.push(ZERO);
            output.push(ZERO);
            write_bits(b, output);
            assert(output@ =~= old(output)@ + bits_of(*term));
        },
        Term::App(f, x) => {
            output.push(ZERO);
            output.push(ONE);
            write_bits(f, output);
            write_bits(x, output);
            assert(output@ =~= old(output)@ + bits_of(*term));
        },
    }
}

/// Writes `term` as a bit string, without separators.
pub fn to_bits(term: &Term) -> (r: Vec<u8>)
    requires
        bits_of(*term).len() <= MAX_SIZE,
    ensures
        r@ == bits_of(*term),
        is_bit_string(r@),
{
    let mut output: Vec<u8> = Vec::new();
    write_bits(term, &mut output);
    assert(output@ =~= bits_of(*term));
    proof {
        lemma_bits_of_is_bit_string(*term);
    }
    output
}

/// The length of the bit string of `term`, where a byte string can be that
/// long.
pub fn bit_length(term: &Term) -> (r: Option<usize>)
    ensures
        r == if bits_of(*term).len() <= MAX_SIZE {
            Some(bits_of(*term).len() as usize)
        } else {
            None::<usize>
        },
    decreases *term,
{
    match term {
        Term::Var(i) => if *i < MAX_SIZE {
            Some(*i + 1)
        } else {
            None
        },
        Term::Abs(b) => match bit_length(b) {
            Some(n) => if n <= MAX_SIZE - 2 {
                Some(n + 2)
            } else {
                None
            },
            None => None,
        },
        Term::App(f, x) => match (bit_length(f), bit_length(x)) {
            (Some(m), Some(n)) => if m <= MAX_SIZE - 2 && n <= MAX_SIZE - 2 - m {
                Some(m + n + 2)
            } else {
                None
            },
            _ => None,
        },
    }
}

/// The test that keeps what is no whitespace.
pub open spec fn not_space() -> spec_fn(u8) -> bool {
    |b: u8| !is_space(b)
}

/// The string without its whitespace.
pub open spec fn strip_space(s: Seq<u8>) -> Seq<u8> {
    s.filter(not_space())
}

/// No byte of the string is whitespace.
pub open spec fn no_space(s: Seq<u8>) -> bool {
    forall|i: int| 0 <= i < s.len() ==> !is_space(#[trigger] s[i])
}

/// A row of `count` characters `1` that a `0` closes is counted in full.
proof fn lemma_ones_from_run(s: Seq<u8>, pos: int, count: nat)
    requires
        0 <= pos,
        pos + count < s.len(),
        forall|i: int| pos <= i < pos + count ==> s[i] == ONE,
        s[pos + count] != ONE,
    ensures
        ones_from(s, pos) == count,
    decreases count,
{
    if count > 0 {
        lemma_ones_from_run(s, pos + 1, (count - 1) as nat);
    }
}

/// Parsing reads back what was written: where the bit string of a term with
/// positive indices stands in a string, the parser finds that term there and ends
/// behind it, whatever stands before and after.
pub proof fn lemma_parse_written(t: Term, before: Seq<u8>, after: Seq<u8>)
    requires
        t.well_formed(),
    ensures
        parse_at(before + bits_of(t) + after, before.len() as int) == Some(
            (t, (before.len() + bits_of(t).len()) as int),
        ),
    decreases t,
{
    let s = before + bits_of(t) + after;
    let pos = before.len() as int;
    match t {
        Term::Var(i) => {
            assert forall|k: int| pos <= k < pos + i implies s[k] == ONE by {
                assert(s[k] == bits_of(t)[k - pos]);
            }
            lemma_ones_from_run(s, pos, i as nat);
        },
        Term::Abs(b) => {
            let head = before + seq![ZERO, ZERO];
            assert(s =~= head + bits_of(*b) + after);
            lemma_parse_written(*b, head, after);
        },
        Term::App(f, x) => {
            let head = before + seq![ZERO, ONE];
            let tail = bits_of(*x) + after;
            assert(s =~= head + bits_of(*f) + tail);
            lemma_parse_written(*f, head, tail);
            let mid = head + bits_of(*f);
            assert(s =~= mid + bits_of(*x) + after);
            lemma_parse_written(*x, mid, after);
        },
    }
}

/// The binary round trip: the bit string of a term with positive indices parses
/// to that term.
pub proof fn lemma_from_bits_of_to_bits(t: Term)
    requires
        t.well_formed(),
    ensures
        parsed(bits_of(t)) == Some(t),
{
    lemma_parse_written(t, Seq::empty(), Seq::empty());
    assert(Seq::<u8>::empty() + bits_of(t) + Seq::<u8>::empty() =~= bits_of(t));
}

/// A string without whitespace is left as it is.
proof fn lemma_strip_nothing(s: Seq<u8>)
    requires
        no_space(s),
    ensures
        strip_space(s) == s,
    decreases s.len(),
{
    reveal(Seq::filter);
    if s.len() > 0 {
        lemma_strip_nothing(s.drop_last());
        assert(s.drop_last().push(s.last()) =~= s);
    }
}

/// What a parse has read is, its whitespace left out, the bit string of the term
/// that it found.
pub proof fn lemma_written_is_parsed(s: Seq<u8>, pos: int)
    requires
        s.len() <= usize::MAX,
    ensures
        match parse_at(s, pos) {
            Some((t, end)) => bits_of(t) == strip_space(s.subrange(pos, end)),
            None => true,
        },
    decreases s.len() - pos,
{
    lemma_parse_bounds(s, pos);
    match parse_at(s, pos) {
        Some((t, end)) => {
            let read = s.subrange(pos, end);
            if is_space(s[pos]) {
                lemma_written_is_parsed(s, pos + 1);
                let rest = s.subrange(pos + 1, end);
                assert(read =~= seq![s[pos]] + rest);
                rest.lemma_filter_prepend(s[pos], not_space());
                assert(Seq::<u8>::empty() + rest.filter(not_space()) =~= rest.filter(not_space()));
            } else if s[pos] == ZERO && s[pos + 1] == ZERO {
                lemma_written_is_parsed(s, pos + 2);
                let rest = s.subrange(pos + 2, end);
                assert(read =~= seq![ZERO, ZERO] + rest);
                Seq::filter_distributes_over_add(seq![ZERO, ZERO], rest, not_space());
                lemma_strip_nothing(seq![ZERO, ZERO]);
            } else if s[pos] == ZERO && s[pos + 1] == ONE {
                lemma_written_is_parsed(s, pos + 2);
                lemma_parse_bounds(s, pos + 2);
                let mid = parse_at(s, pos + 2).unwrap().1;
                lemma_written_is_parsed(s, mid);
                lemma_parse_bounds(s, mid);
                let lhs = s.subrange(pos + 2, mid);
                let rhs = s.subrange(mid, end);
                assert(read =~= seq![ZERO, ONE] + lhs + rhs);
                Seq::filter_distributes_over_add(seq![ZERO, ONE] + lhs, rhs, not_space());
                Seq::filter_distributes_over_add(seq![ZERO, ONE], lhs, not_space());
                lemma_strip_nothing(seq![ZERO, ONE]);
            } else {
                lemma_ones_from_bounds(s, pos);
                assert(read =~= bits_of(t));
                lemma_strip_nothing(read);
            }
        },
        None => {},
    }
}

/// The binary round trip, from the string's side: a string without whitespace
/// that holds one term and nothing behind it is the bit string of that term.
pub proof fn lemma_to_bits_of_from_bits(s: Seq<u8>, t: Term)
    requires
        s.len() <= usize::MAX,
        no_space(s),
        parse_at(s, 0) == Some((t, s.len() as int)),
    ensures
        bits_of(t) == s,
{
    lemma_written_is_parsed(s, 0);
    assert(s.subrange(0, s.len() as int) =~= s);
    lemma_strip_nothing(s);
}

/// Whether the string holds the characters `0` and `1` and nothing else.
pub fn is_bits(bits: &[u8]) -> (r: bool)
    ensures
        r == is_bit_string(bits@),
{
    let mut i: usize = 0;
    while i < bits.len()
        invariant
            i <= bits.len(),
            forall|j: int| 0 <= j < i ==> bits@[j] == ZERO || bits@[j] == ONE,
        decreases bits.len() - i,
    {
        if bits[i] != ZERO && bits[i] != ONE {
            return false;
        }
        i += 1;
    }
    true
}

/// The bit at position `i` of a bit string; behind its end every bit is 0.
pub open spec fn bit_at(s: Seq<u8>, i: int) -> int {
    if 0 <= i < s.len() && s[i] == ONE {
        1
    } else {
        0
    }
}

/// The value of the `j`-th group of eight bits, the first bit weighing most.
pub open spec fn packed_byte(s: Seq<u8>, j: int) -> int {
    128 * bit_at(s, 8 * j) + 64 * bit_at(s, 8 * j + 1) + 32 * bit_at(s, 8 * j + 2) + 16 * bit_at(
        s,
        8 * j + 3,
    ) + 8 * bit_at(s, 8 * j + 4) + 4 * bit_at(s, 8 * j + 5) + 2 * bit_at(s, 8 * j + 6) + bit_at(
        s,
        8 * j + 7,
    )
}

/// The bytes that a bit string packs into: one for each group of eight bits, the
/// last group filled up with bits 0.
pub open spec fn packed(s: Seq<u8>) -> Seq<u8> {
    Seq::new(((s.len() + 7) / 8) as nat, |j: int| packed_byte(s, j) as u8)
}

/// What the bit at place `k` of a byte weighs, the place 0 being the first.
pub open spec fn weight(k: int) -> int {
    if k == 0 {
        128
    } else if k == 1 {
        64
    } else if k == 2 {
        32
    } else if k == 3 {
        16
    } else if k == 4 {
        8
    } else if k == 5 {
        4
    } else if k == 6 {
        2
    } else {
        1
    }
}

/// The character that writes the bit at place `k` of the byte `b`.
pub open spec fn bit_char(b: u8, k: int) -> u8 {
    if (b as int / weight(k)) % 2 == 1 {
        ONE
    } else {
        ZERO
    }
}

/// The bit string that bytes unpack into: eight characters for each byte, the
/// bit that weighs most first.
pub open spec fn unpacked(b: Seq<u8>) -> Seq<u8> {
    Seq::new(8 * b.len(), |i: int| bit_char(b[i / 8], i % 8))
}

fn bit_value(bits: &[u8], base: usize, offset: usize) -> (r: u8)
    requires
        base <= bits.len(),
        offset < 8,
    ensures
        r == bit_at(bits@, base + offset),
        r <= 1,
{
    if offset < bits.len() - base && bits[base + offset] == ONE {
        1
    } else {
        0
    }
}

/// Packs a bit string into bytes, eight bits to a byte and the first bit in the
/// place that weighs most. A last group of fewer than eight bits is filled up
/// with bits 0.
pub fn compress(bits: &[u8]) -> (r: Vec<u8>)
    requires
        is_bit_string(bits@),
    ensures
        r@ == packed(bits@),
{
    let length: usize = bits.len();
    let count: usize = if length % 8 == 0 {
        length / 8
    } else {
        length / 8 + 1
    };
    let mut output: Vec<u8> = Vec::with_capacity(count);
    let mut j: usize = 0;
    while j < count
        invariant
            length == bits.len(),
            count == (length + 7) / 8,
            j <= count,
            output@.len() == j,
            forall|i: int| 0 <= i < j ==> output@[i] == packed_byte(bits@, i) as u8,
        decreases count - j,
    {
        let base: usize = 8 * j;
        let byte: u8 = 128 * bit_value(bits, base, 0) + 64 * bit_value(bits, base, 1) + 32
            * bit_value(bits, base, 2) + 16 * bit_value(bits, base, 3) + 8 * bit_value(
            bits,
            base,
            4,
        ) + 4 * bit_value(bits, base, 5) + 2 * bit_value(bits, base, 6) + bit_value(
            bits,
            base,
            7,
        );
        output.push(byte);
        j += 1;
    }
    assert(output@ =~= packed(bits@));
    output
}

/// Unpacks bytes into a bit string: each byte gives eight characters, the bit
/// that weighs most first.
pub fn decompress(bytes: &[u8]) -> (r: Vec<u8>)
    requires
        8 * bytes@.len() <= MAX_SIZE,
    ensures
        r@ == unpacked(bytes@),
        is_bit_string(r@),
{
    let count: usize = bytes.len();
    let mut output: Vec<u8> = Vec::with_capacity(count * 8);
    let mut j: usize = 0;
    while j < count
        invariant
            count == bytes.len(),
            j <= count,
            output@.len() == 8 * j,
            forall|i: int| 0 <= i < 8 * j ==> output@[i] == bit_char(bytes@[i / 8], i % 8),
        decreases count - j,
    {
        let byte: u8 = bytes[j];
        let mut k: usize = 0;
        let mut w: u8 = 128;
        while k < 8
            invariant
                j < count,
                count == bytes.len(),
                byte == bytes@[j as int],
                k <= 8,
                k < 8 ==> w == weight(k as int),
                output@.len() == 8 * j + k,
                forall|i: int| 0 <= i < 8 * j + k ==> output@[i] == bit_char(bytes@[i / 8], i % 8),
            decreases 8 - k,
        {
            let c: u8 = if (byte / w) % 2 == 1 {
                ONE
            } else {
                ZERO
            };
            output.push(c);
            w = w / 2;
            k += 1;
        }
        j += 1;
    }
    assert(output@ =~= unpacked(bytes@));
    output
}

/// A byte is the sum of its bits, each by its weight.
pub proof fn lemma_byte_of_bits(b: u8)
    by (bit_vector)
    ensures
        b == 128 * ((b / 128) % 2) + 64 * ((b / 64) % 2) + 32 * ((b / 32) % 2) + 16 * ((b / 16)
            % 2) + 8 * ((b / 8) % 2) + 4 * ((b / 4) % 2) + 2 * ((b / 2) % 2) + b % 2,
{
}

/// Eight bits, each by its weight, make a byte that gives each of them back.
proof fn lemma_bits_of_byte(b0: u8, b1: u8, b2: u8, b3: u8, b4: u8, b5: u8, b6: u8, b7: u8)
    by (bit_vector)
    requires
        b0 <= 1,
        b1 <= 1,
        b2 <= 1,
        b3 <= 1,
        b4 <= 1,
        b5 <= 1,
        b6 <= 1,
        b7 <= 1,
    ensures
        128 * b0 + 64 * b1 + 32 * b2 + 16 * b3 + 8 * b4 + 4 * b5 + 2 * b6 + b7 <= 255,
        ((128 * b0 + 64 * b1 + 32 * b2 + 16 * b3 + 8 * b4 + 4 * b5 + 2 * b6 + b7) / 128) % 2 == b0,
        ((128 * b0 + 64 * b1 + 32 * b2 + 16 * b3 + 8 * b4 + 4 * b5 + 2 * b6 + b7) / 64) % 2 == b1,
        ((128 * b0 + 64 * b1 + 32 * b2 + 16 * b3 + 8 * b4 + 4 * b5 + 2 * b6 + b7) / 32) % 2 == b2,
        ((128 * b0 + 64 * b1 + 32 * b2 + 16 * b3 + 8 * b4 + 4 * b5 + 2 * b6 + b7) / 16) % 2 == b3,
        ((128 * b0 + 64 * b1 + 32 * b2 + 16 * b3 + 8 * b4 + 4 * b5 + 2 * b6 + b7) / 8) % 2 == b4,
        ((128 * b0 + 64 * b1 + 32 * b2 + 16 * b3 + 8 * b4 + 4 * b5 + 2 * b6 + b7) / 4) % 2 == b5,
        ((128 * b0 + 64 * b1 + 32 * b2 + 16 * b3 + 8 * b4 + 4 * b5 + 2 * b6 + b7) / 2) % 2 == b6,
        (128 * b0 + 64 * b1 + 32 * b2 + 16 * b3 + 8 * b4 + 4 * b5 + 2 * b6 + b7) % 2 == b7,
{
}

/// The packing round trip: bytes that are unpacked and packed again are the same
/// bytes.
#[verifier::rlimit(40)]
pub proof fn lemma_pack_unpack(b: Seq<u8>)
    ensures
        packed(unpacked(b)) == b,
{
    let s = unpacked(b);
    assert forall|j: int| 0 <= j < b.len() implies packed_byte(s, j) == b[j] by {
        lemma_byte_of_bits(b[j]);
        assert(s[8 * j] == bit_char(b[j], 0));
        assert(s[8 * j + 1] == bit_char(b[j], 1));
        assert(s[8 * j + 2] == bit_char(b[j], 2));
        assert(s[8 * j + 3] == bit_char(b[j], 3));
        assert(s[8 * j + 4] == bit_char(b[j], 4));
        assert(s[8 * j + 5] == bit_char(b[j], 5));
        assert(s[8 * j + 6] == bit_char(b[j], 6));
        assert(s[8 * j + 7] == bit_char(b[j], 7));
    }
    assert(packed(s) =~= b);
}

/// The packing round trip from the other side: a bit string whose length is a
/// multiple of eight is what its packed bytes unpack into.
#[verifier::rlimit(40)]
pub proof fn lemma_unpack_pack(s: Seq<u8>)
    requires
        is_bit_string(s),
        s.len() % 8 == 0,
    ensures
        unpacked(packed(s)) == s,
{
    let b = packed(s);
    assert(b.len() == s.len() / 8);
    assert forall|i: int| 0 <= i < s.len() implies bit_char(b[i / 8], i % 8) == s[i] by {
        let j = i / 8;
        lemma_bits_of_byte(
            bit_at(s, 8 * j) as u8,
            bit_at(s, 8 * j + 1) as u8,
            bit_at(s, 8 * j + 2) as u8,
            bit_at(s, 8 * j + 3) as u8,
            bit_at(s, 8 * j + 4) as u8,
            bit_at(s, 8 * j + 5) as u8,
            bit_at(s, 8 * j + 6) as u8,
            bit_at(s, 8 * j + 7) as u8,
        );
        assert(b[j] == packed_byte(s, j) as u8);
        assert(s[i] == ZERO || s[i] == ONE);
    }
    assert(unpacked(b) =~= s);
}

} // verus!
