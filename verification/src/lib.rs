use vstd::prelude::*;

pub mod attack;
pub mod checkpoint;
pub mod cli;
pub mod codec;
pub mod data;
pub mod paths;
pub mod run;
pub mod text;

verus! {

} // verus!
