use vstd::prelude::*;

pub mod image;
pub mod psa;
pub mod rgb;
pub mod tree;

verus! {

} // verus!
