use vstd::prelude::*;

pub mod chars;
pub mod parser;
pub mod diff;
pub mod encode;
pub mod laws;
pub mod operation;
pub mod patch;
pub mod path;
pub mod resolve;
pub mod text;
pub mod value;

verus! {

} // verus!
