//! Guesses the dominant source-file extension of a directory tree: a marker file
//! directly in the directory decides first, else a depth-bounded walk tallies the
//! extensions that are looked for and stops once one of them is common enough.
//! Results are remembered per directory in a cache with a plain-text stored form.
use vstd::prelude::*;

pub mod cache;
pub mod detect;
pub mod laws;
pub mod text;
pub mod walk;

verus! {

} // verus!
