//! Counter-examples for LR conflicts: enumerate the alternative histories in
//! a conflict trace, rebuild one derivation per history, and draw it as text
//! with a bracket and label under each reduction.
use vstd::prelude::*;

pub mod grammar;
pub mod backtrace;
pub mod example;
pub mod iterator;
pub mod layout;
pub mod canvas;
pub mod render;

verus! {

} // verus!
