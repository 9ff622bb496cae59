//! The lambda encoding of byte strings.

pub use crate::encoding::lambda::{decode, encode};
