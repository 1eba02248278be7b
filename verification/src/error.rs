use vstd::prelude::*;

verus! {

/// The one failure the crate can report: a numeric argument fell outside its
/// valid bounds. Carries the offending value, the minimum and the maximum.
#[derive(Clone, Copy, PartialEq, Eq, Debug, Structural)]
pub enum Error {
    OutOfRange(u32, u32, u32),
}

} // verus!
