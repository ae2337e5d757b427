//! Log line classification: split text into lines and whitespace tokens,
//! scan each line for a fixed set of severity keywords, and collect the
//! matching lines as structured events.

pub mod classify;
pub mod laws;
pub mod text;
