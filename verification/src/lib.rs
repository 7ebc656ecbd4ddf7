//! The verified core of a graphical front-end for the slacker package
//! manager: which command lines are run and with what privilege, how
//! slacker's human-readable output and its questions are read, and how raw
//! command output is cleaned for display.
use vstd::prelude::*;

pub mod commands;
pub mod confirm;
pub mod edit;
pub mod output;
pub mod pages;
pub mod parse;
pub mod resolve;
pub mod runner;
pub mod text;
pub mod window;

verus! {

} // verus!
