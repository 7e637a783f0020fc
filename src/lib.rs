use vstd::prelude::*;

pub mod error;
pub mod laws;
pub mod leb;
pub mod module;
pub mod paths;

verus! {

} // verus!
