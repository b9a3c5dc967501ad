use vstd::prelude::*;

pub mod value;
pub mod object;
pub mod world;
pub mod err;
pub mod read;
pub mod compile;
pub mod eval;

verus! {

} // verus!
