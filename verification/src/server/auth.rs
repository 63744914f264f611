//! Authentication, which there is none of.

use vstd::prelude::*;

verus! {

/// The authentication service. It refuses every request.
#[derive(Debug, Default)]
pub struct Auth;

impl Auth {
    /// What every request is told.
    pub fn refusal(&self) -> (r: &'static str)
        ensures
            r@ == "not implemented"@,
    {
        "not implemented"
    }
}

} // verus!
