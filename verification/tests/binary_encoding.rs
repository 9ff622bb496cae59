use blc::binary_encoding::{compress, decompress, from_binary, to_binary};
use blc::term::Term::Var;
use blc::term::{abs, app};

const QUINE: &[u8; 66] = b"000101100100011010000000000001011011110010111100111111011111011010";

const PRIMES: &[u8; 167] =
    b"00010001100110010100011010000000010110000010010001010111110111101001000110100001\
      11001101000000000010110111001110011111110111100000000111110011011100000010110000\
      0110110";

const BLC: &[u8; 232] =
    b"01010001101000000001010110000000000111100001011111100111100001011100111100000011\
      11000010110110111001111100001111100001011110100111010010110011100001101100001011\
      111000011111000011100110111101111100111101110110000110010001101000011010";

#[test]
fn binary_encoding_variables() {
    assert_eq!(from_binary(b"10"), Ok(Var(1)));
    assert_eq!(from_binary(b"110"), Ok(Var(2)));
    assert_eq!(from_binary(b"1110"), Ok(Var(3)));
}

#[test]
fn binary_encoding_abstractions() {
    assert_eq!(from_binary(b"0010"), Ok(abs(Var(1))));
    assert_eq!(from_binary(b"000010"), Ok(abs(abs(Var(1)))));
    assert_eq!(from_binary(b"00000010"), Ok(abs(abs(abs(Var(1))))));
}

#[test]
fn binary_encoding_applications() {
    assert_eq!(from_binary(b"011010"), Ok(app(Var(1), Var(1))));
    assert_eq!(from_binary(b"0110110"), Ok(app(Var(1), Var(2))));
    assert_eq!(from_binary(b"0111010"), Ok(app(Var(2), Var(1))));
}

#[test]
fn binary_encoding_ignoring_whitespaces() {
    assert_eq!(from_binary(b"00 00\t00\n10\r\n"), Ok(abs(abs(abs(Var(1))))));
}

#[test]
fn from_binary_and_back() {
    let k = b"0000110";
    let v15 = b"1111111111111110";
    let s = b"00000001011110100111010";
    let succ = b"000000011100101111011010";

    assert_eq!(to_binary(&from_binary(&*k).unwrap()), k);
    assert_eq!(to_binary(&from_binary(&*v15).unwrap()), v15);
    assert_eq!(to_binary(&from_binary(&*s).unwrap()), s);
    assert_eq!(to_binary(&from_binary(&*succ).unwrap()), succ);
    assert_eq!(to_binary(&from_binary(&*QUINE).unwrap()), &QUINE[..]);
    assert_eq!(to_binary(&from_binary(&*PRIMES).unwrap()), Vec::from(&PRIMES[..]));
    assert_eq!(to_binary(&from_binary(&*BLC).unwrap()), Vec::from(&BLC[..]));
}

#[test]
fn binary_encoding_compression() {
    let primes_c = compress(&PRIMES[..]);
    assert_eq!(primes_c.first().unwrap(), &0x11);
    assert_eq!(primes_c.last().unwrap(), &0x6c);

    let blc_c = compress(&BLC[..]);
    assert_eq!(blc_c.first().unwrap(), &0x51);
    assert_eq!(blc_c.last().unwrap(), &0x1a);
}

#[test]
fn binary_encoding_decompression() {
    let s_c = vec![0x1, 0x7a, 0x74];
    assert_eq!(compress(&decompress(&s_c)), s_c);
}

#[test]
fn binary_encoding_compress_decompress() {
    assert_eq!(decompress(&compress(&BLC[..])), Vec::from(&BLC[..]));
}
