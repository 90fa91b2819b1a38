//! A token for a hidden terminal cursor. Hiding and showing the cursor is
//! terminal output, which the program around the library does.
use vstd::prelude::*;

verus! {

/// While a value of this type is held, the terminal cursor is meant to
/// stay hidden.
#[derive(Clone, Copy, Debug)]
pub struct InvisibleCursor;

impl InvisibleCursor {
    pub fn new() -> (c: InvisibleCursor) {
        InvisibleCursor
    }
}

} // verus!
