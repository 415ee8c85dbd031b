//! A small key/value server library: the wire codec, an expiring store and
//! the command interpreter that joins them.

use vstd::prelude::*;

pub mod resp;
pub mod store;
pub mod command;

verus! {
} // verus!
