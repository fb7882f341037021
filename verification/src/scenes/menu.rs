//! The opening screen.

use vstd::prelude::*;

verus! {

/// The opening screen; it holds no state.
#[derive(Clone, Copy, PartialEq, Eq, Structural, Debug)]
pub struct Menu {}

impl Menu {
    pub fn new() -> (r: Menu)
        ensures
            r == (Menu {}),
    {
        Menu {}
    }
}

} // verus!
