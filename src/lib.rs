//! Turns an e-reader's clippings export into clips grouped by book, and each
//! book into the body of a Notion page.
use vstd::prelude::*;

pub mod clippings;
pub mod date;
pub mod error;
pub mod laws;
pub mod notion;
pub mod text;

verus! {

/// Adds two numbers.
pub fn add(left: usize, right: usize) -> (r: usize)
    requires
        left + right <= usize::MAX,
    ensures
        r == left + right,
{
    left + right
}

} // verus!
