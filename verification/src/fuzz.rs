//! Reading the raw numbers of a fuzzing input.

use vstd::prelude::*;

verus! {

/// The number of steps a fuzzing input asks the machine to run: between 1
/// and 512, from any raw value.
pub fn steps(raw: u16) -> (n: u64)
    ensures
        n == raw as int % 512 + 1,
        1 <= n <= 512,
{
    raw as u64 % 512 + 1
}

} // verus!
