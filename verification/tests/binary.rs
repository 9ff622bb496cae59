use blc::encoding::binary::{
    bit_length, compress, decompress, from_bits, is_bits, to_bits, Error,
};
use blc::term::Term::Var;
use blc::term::{abs, app, Term};

const QUINE: &[u8; 66] = b"000101100100011010000000000001011011110010111100111111011111011010";

const PRIMES: &[u8; 167] =
    b"00010001100110010100011010000000010110000010010001010111110111101001000110100001\
      11001101000000000010110111001110011111110111100000000111110011011100000010110000\
      0110110";

const BLC: &[u8; 232] =
    b"01010001101000000001010110000000000111100001011111100111100001011100111100000011\
      11000010110110111001111100001111100001011110100111010010110011100001101100001011\
      111000011111000011100110111101111100111101110110000110010001101000011010";

#[test]
fn binary_variables() {
    assert_eq!(from_bits(b"10"), Ok(Var(1)));
    assert_eq!(from_bits(b"110"), Ok(Var(2)));
    assert_eq!(from_bits(b"1110"), Ok(Var(3)));
}

#[test]
fn binary_abstractions() {
    assert_eq!(from_bits(b"0010"), Ok(abs(Var(1))));
    assert_eq!(from_bits(b"000010"), Ok(abs(abs(Var(1)))));
    assert_eq!(from_bits(b"00000010"), Ok(abs(abs(abs(Var(1))))));
}

#[test]
fn binary_applications() {
    assert_eq!(from_bits(b"011010"), Ok(app(Var(1), Var(1))));
    assert_eq!(from_bits(b"0110110"), Ok(app(Var(1), Var(2))));
    assert_eq!(from_bits(b"0111010"), Ok(app(Var(2), Var(1))));
}

#[test]
fn binary_ignoring_whitespaces() {
    assert_eq!(from_bits(b"00 00\t00\n10\r\n"), Ok(abs(abs(abs(Var(1))))));
}

#[test]
fn from_bits_and_back() {
    let k = b"0000110";
    let v15 = b"1111111111111110";
    let s = b"00000001011110100111010";
    let succ = b"000000011100101111011010";

    assert_eq!(to_bits(&from_bits(&*k).unwrap()), k);
    assert_eq!(to_bits(&from_bits(&*v15).unwrap()), v15);
    assert_eq!(to_bits(&from_bits(&*s).unwrap()), s);
    assert_eq!(to_bits(&from_bits(&*succ).unwrap()), succ);
    assert_eq!(to_bits(&from_bits(&*QUINE).unwrap()), &QUINE[..]);
    assert_eq!(to_bits(&from_bits(&*PRIMES).unwrap()), Vec::from(&PRIMES[..]));
    assert_eq!(to_bits(&from_bits(&*BLC).unwrap()), Vec::from(&BLC[..]));
}

#[test]
fn binary_compression() {
    let primes_c = compress(&PRIMES[..]);
    assert_eq!(primes_c.first().unwrap(), &0x11);
    assert_eq!(primes_c.last().unwrap(), &0x6c);

    let blc_c = compress(&BLC[..]);
    assert_eq!(blc_c.first().unwrap(), &0x51);
    assert_eq!(blc_c.last().unwrap(), &0x1a);
}

#[test]
fn binary_decompression() {
    let s_c = vec![0x1, 0x7a, 0x74];
    assert_eq!(compress(&decompress(&s_c)), s_c);
}

#[test]
fn binary_compress_decompress() {
    assert_eq!(decompress(&compress(&BLC[..])), Vec::from(&BLC[..]));
}

#[test]
fn parse_rejects_what_is_no_term() {
    assert_eq!(from_bits(b""), Err(Error::NotATerm));
    assert_eq!(from_bits(b" \t\r\n"), Err(Error::NotATerm));
    assert_eq!(from_bits(b"0"), Err(Error::NotATerm));
    assert_eq!(from_bits(b"1"), Err(Error::NotATerm));
    assert_eq!(from_bits(b"00"), Err(Error::NotATerm));
    assert_eq!(from_bits(b"01"), Err(Error::NotATerm));
    assert_eq!(from_bits(b"0110"), Err(Error::NotATerm));
    assert_eq!(from_bits(b"000"), Err(Error::NotATerm));
    assert_eq!(from_bits(b"2010"), Err(Error::NotATerm));
    assert_eq!(from_bits(b"0210"), Err(Error::NotATerm));
}

#[test]
fn parse_wants_the_zero_that_closes_a_variable() {
    assert_eq!(from_bits(b"11"), Err(Error::NotATerm));
    assert_eq!(from_bits(b"111"), Err(Error::NotATerm));
    assert_eq!(from_bits(b"11x0"), Err(Error::NotATerm));
    assert_eq!(from_bits(b"0011"), Err(Error::NotATerm));
}

#[test]
fn parse_takes_no_whitespace_inside_a_token() {
    assert_eq!(from_bits(b"0 010"), Err(Error::NotATerm));
    assert_eq!(from_bits(b"1 10"), Err(Error::NotATerm));
    assert_eq!(from_bits(b"11 0"), Err(Error::NotATerm));
    assert_eq!(from_bits(b" 01 10 110 "), Ok(app(Var(1), Var(2))));
}

#[test]
fn parse_ignores_what_follows_the_term() {
    assert_eq!(from_bits(b"10"), Ok(Var(1)));
    assert_eq!(from_bits(b"1011111"), Ok(Var(1)));
    assert_eq!(from_bits(b"0010garbage"), Ok(abs(Var(1))));
    assert_eq!(from_bits(b"01101000"), Ok(app(Var(1), Var(1))));
}

#[test]
fn bits_of_each_shape() {
    assert_eq!(to_bits(&Var(1)), b"10");
    assert_eq!(to_bits(&Var(4)), b"11110");
    assert_eq!(to_bits(&Var(0)), b"0");
    assert_eq!(to_bits(&abs(Var(1))), b"0010");
    assert_eq!(to_bits(&app(Var(2), abs(Var(1)))), b"011100010");
}

#[test]
fn round_trip_from_the_term() {
    let terms: Vec<Term> = vec![
        Var(1),
        Var(7),
        abs(Var(1)),
        app(abs(abs(Var(2))), abs(app(Var(1), Var(1)))),
        abs(abs(abs(app(app(Var(3), Var(1)), app(Var(2), Var(1)))))),
    ];
    for t in terms {
        assert_eq!(from_bits(&to_bits(&t)), Ok(t));
    }
}

#[test]
fn round_trip_drops_whitespace_and_the_rest() {
    let t = from_bits(b" 00\n01 10\t110 1111").unwrap();
    assert_eq!(to_bits(&t), b"000110110");
}

#[test]
fn parsed_indices_are_positive() {
    let t = from_bits(&QUINE[..]).unwrap();
    assert!(t.is_well_formed());
    assert!(t.is_closed());
    assert!(!from_bits(b"10").unwrap().is_closed());
    assert!(from_bits(b"10").unwrap().is_well_formed());
}

#[test]
fn compress_packs_the_first_bit_highest() {
    assert_eq!(compress(b"000000011100101111011010"), vec![0x01, 0xCB, 0xDA]);
    assert_eq!(compress(b"10000000"), vec![0x80]);
    assert_eq!(compress(b"00000001"), vec![0x01]);
    assert_eq!(compress(b"11111111"), vec![0xFF]);
}

#[test]
fn compress_fills_the_last_byte_with_zeros() {
    assert_eq!(compress(b""), Vec::<u8>::new());
    assert_eq!(compress(b"1"), vec![0x80]);
    assert_eq!(compress(b"0000110"), vec![0x0C]);
    assert_eq!(compress(b"111111111"), vec![0xFF, 0x80]);
}

#[test]
fn decompress_writes_eight_bits_a_byte() {
    assert_eq!(decompress(&[]), Vec::<u8>::new());
    assert_eq!(decompress(&[0x01, 0xCB, 0xDA]), b"000000011100101111011010");
    assert_eq!(decompress(&[0x20]), b"00100000");
    assert_eq!(decompress(&[0x80, 0xFF, 0x00]), b"100000001111111100000000");
}

#[test]
fn packing_round_trip_of_every_byte() {
    let all: Vec<u8> = (0..=255u8).collect();
    assert_eq!(compress(&decompress(&all)), all);
}

#[test]
fn unpacking_round_trip_needs_whole_bytes() {
    assert_eq!(decompress(&compress(b"0101010111110000")), b"0101010111110000");
    assert_eq!(decompress(&compress(b"0000110")), b"00001100");
}

#[test]
fn bit_strings_hold_zeros_and_ones() {
    assert!(is_bits(b""));
    assert!(is_bits(b"0110"));
    assert!(!is_bits(b"01 10"));
    assert!(!is_bits(b"0120"));
    assert!(is_bits(&to_bits(&from_bits(&BLC[..]).unwrap())));
    assert!(is_bits(&decompress(&[0x00, 0x5a, 0xff])));
}

#[test]
fn bit_length_is_the_length_of_the_bits() {
    assert_eq!(bit_length(&Var(1)), Some(2));
    assert_eq!(bit_length(&Var(0)), Some(1));
    assert_eq!(bit_length(&abs(Var(3))), Some(6));
    assert_eq!(bit_length(&app(Var(1), abs(Var(2)))), Some(9));
    let t = from_bits(&PRIMES[..]).unwrap();
    assert_eq!(bit_length(&t), Some(PRIMES.len()));
    assert_eq!(bit_length(&t), Some(to_bits(&t).len()));
}

#[test]
fn bit_length_of_what_no_string_can_hold() {
    assert_eq!(bit_length(&Var(usize::MAX)), None);
    assert_eq!(bit_length(&Var(usize::MAX / 2)), None);
    assert_eq!(bit_length(&Var(usize::MAX / 2 - 1)), Some(usize::MAX / 2));
    assert_eq!(bit_length(&abs(Var(usize::MAX / 2 - 1))), None);
    assert_eq!(bit_length(&app(Var(usize::MAX / 2 - 3), Var(1))), None);
    assert_eq!(bit_length(&app(Var(usize::MAX / 2 - 5), Var(1))), Some(usize::MAX / 2));
}
