//! The binary encoding of terms, with the parser and the writer by the names
//! `from_binary` and `to_binary`.

pub use crate::encoding::binary::{
    compress, decompress, from_bits as from_binary, to_bits as to_binary, Error,
};
