//! Parsing of JSON documents into value trees, with the position of the first
//! character not understood on failure, and profiles of what the documents
//! hold: the kinds of values at each place, their numbers and strings, and
//! which object keys recur.
use vstd::prelude::*;

pub mod extremes;
pub mod grammar;
pub mod parser;
pub mod profile;
pub mod sniffer;
pub mod value;

verus! {

} // verus!
