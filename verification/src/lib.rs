use vstd::prelude::*;

pub mod bowe_hopwood;
pub mod poseidon;

verus! {

} // verus!
