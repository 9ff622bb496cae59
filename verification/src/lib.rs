//! Binary lambda calculus: terms with De Bruijn indices, their bit-string
//! syntax, the Church encoding of byte strings, and the execution of programs.

pub mod binary_encoding;
pub mod encoding;
pub mod execution;
pub mod lambda_encoding;
pub mod outer;
pub mod pair_list;
pub mod reduction;
pub mod term;

pub use crate::encoding::binary::{compress, decompress, from_bits, to_bits};
pub use crate::encoding::lambda::{decode, encode};
pub use crate::execution::{run, Input};
pub use crate::reduction::reduce;
