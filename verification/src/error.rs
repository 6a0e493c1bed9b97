use vstd::prelude::*;

verus! {

/// The errors of this cryptosystem.
#[derive(Clone, Copy, PartialEq, Eq, Structural, Debug)]
pub enum Error {
    /// Fewer than `threshold + 1` shares were presented for combination.
    NotEnoughShares,
    /// Two share indices collided, or a Lagrange denominator was zero and
    /// could not be inverted.
    DuplicateEntry,
    /// A polynomial was requested whose coefficient vector cannot exist on
    /// this platform.
    DegreeTooHigh,
    /// A byte string did not decode to a valid curve point.
    InvalidBytes,
}

impl Error {
    /// A short description of the error, for callers that wish to print it.
    pub fn message(&self) -> (r: &'static str)
        ensures
            r@ =~= match self {
                Error::NotEnoughShares => "not enough shares"@,
                Error::DuplicateEntry => "duplicate entry"@,
                Error::DegreeTooHigh => "degree too high"@,
                Error::InvalidBytes => "invalid bytes"@,
            },
    {
        match self {
            Error::NotEnoughShares => "not enough shares",
            Error::DuplicateEntry => "duplicate entry",
            Error::DegreeTooHigh => "degree too high",
            Error::InvalidBytes => "invalid bytes",
        }
    }
}

} // verus!
