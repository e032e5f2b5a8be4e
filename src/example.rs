//! A sample function on `{0,1}^2`, with values in `F_5`.
use crate::lagrange::MleError;
use vstd::prelude::*;

verus! {

/// The value of the sample function at `(a, b)`.
pub open spec fn sample_value(a: bool, b: bool) -> u64 {
    match (a, b) {
        (false, false) => 1,
        (false, true) => 2,
        (true, false) => 1,
        (true, true) => 4,
    }
}

/// The sample function on `{0,1}^2`: `f(0,0) = 1`, `f(0,1) = 2`,
/// `f(1,0) = 1`, `f(1,1) = 4`. A point of any other length is refused.
pub fn f(x: &Vec<bool>) -> (r: Result<u64, MleError>)
    ensures
        x@.len() != 2 ==> r == Err::<u64, MleError>(
            MleError::DomainLengthMismatch { expected: 2, found: x.len() },
        ),
        x@.len() == 2 ==> r == Ok::<u64, MleError>(sample_value(x@[0], x@[1])),
{
    if x.len() != 2 {
        return Err(MleError::DomainLengthMismatch { expected: 2, found: x.len() });
    }
    let v: u64 = match (x[0], x[1]) {
        (false, false) => 1,
        (false, true) => 2,
        (true, false) => 1,
        (true, true) => 4,
    };
    Ok(v)
}

} // verus!
