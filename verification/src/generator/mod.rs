pub mod page_generator;
pub mod toc_generator;

use vstd::prelude::*;

verus! {

/// A piece of HTML text.
pub type Html = String;

} // verus!
