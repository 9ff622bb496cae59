//! The two codecs: terms as bit strings, and byte strings as terms.

pub mod binary;
pub mod lambda;
