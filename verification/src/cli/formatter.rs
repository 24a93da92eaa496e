use vstd::prelude::*;

verus! {

/// Prints responses to a terminal in the ANSI format.
pub struct AnsiTermHandler;

} // verus!
