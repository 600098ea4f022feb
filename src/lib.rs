//! Planning of configuration values into output documents.
use vstd::prelude::*;

pub mod text;
pub mod value;
pub mod plan;
pub mod emit;
pub mod render;
pub mod laws;
pub mod json;

verus! {

} // verus!
