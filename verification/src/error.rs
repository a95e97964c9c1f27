//! The ways in which building or reading a series can fail.

use vstd::prelude::*;

verus! {

/// Why an operation on a series failed.
#[derive(Debug, Clone, Copy, PartialEq, Eq, Structural)]
pub enum Error {
    /// A value does not fit the widest slot of a packed word.
    ValueTooLarge,
    /// A position would be stored further from where it was measured than the
    /// series allows.
    PrecisionExceeded,
    /// The series holds no position for the requested time.
    NoDataPoint,
}

impl Error {
    /// A short description of the failure.
    pub fn message(&self) -> (text: &'static str)
        ensures
            text@ == match self {
                Error::ValueTooLarge => "value too large"@,
                Error::PrecisionExceeded => "error too big"@,
                Error::NoDataPoint => "no datapoint"@,
            },
    {
        match self {
            Error::ValueTooLarge => {
                proof {
                    reveal_strlit("value too large");
                }
                "value too large"
            },
            Error::PrecisionExceeded => {
                proof {
                    reveal_strlit("error too big");
                }
                "error too big"
            },
            Error::NoDataPoint => {
                proof {
                    reveal_strlit("no datapoint");
                }
                "no datapoint"
            },
        }
    }
}

} // verus!
