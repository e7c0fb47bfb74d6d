use vstd::prelude::*;

pub mod laws;
pub mod pairs;
pub mod persist;
pub mod text;
pub mod tokenizer;
pub mod training;

pub use persist::BpeMerge;
pub use tokenizer::{BPETokenizerSimple, TokenizerError};

verus! {

} // verus!
