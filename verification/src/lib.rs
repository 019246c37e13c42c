use vstd::prelude::*;

pub mod text;
pub mod pattern;
pub mod sanitize;
pub mod command;
pub mod classify;
pub mod log;
pub mod runner;
pub mod cli;

verus! {

} // verus!
