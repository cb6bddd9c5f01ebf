//! Questions to a caller whether to go on.

use crate::error::{Error, Result};
use vstd::prelude::*;

verus! {

/// The check lets the work go on when asked.
pub open spec fn goes_on<F: FnMut() -> Result<()>>(check: F) -> bool {
    call_ensures(check, (), Ok::<(), Error>(()))
}

/// Asks whether to go on.
pub fn ask<F: FnMut() -> Result<()>>(check: &mut F) -> (answer: Result<()>)
    requires
        call_requires(*old(check), ()),
    ensures
        *final(check) == *old(check),
        match answer {
            Ok(_) => goes_on(*old(check)),
            Err(error) => call_ensures(*old(check), (), Err::<(), Error>(error)),
        },
{
    let answer = check();
    if let Ok(unit) = answer {
        assert(unit == ());
        assert(answer == Ok::<(), Error>(()));
    }
    answer
}

} // verus!
