//! Fixed-point numbers with six decimal places.

use vstd::prelude::*;

verus! {

/// Number of units that make up one whole.
pub const UNITS_PER_ONE: i64 = 1_000_000;

/// Number of decimal places that a value keeps.
pub const DECIMAL_PLACES: u32 = 6;

/// A decimal number held as a count of millionths.
#[derive(Clone, Copy, Debug, PartialEq, Eq, Structural)]
pub struct Fixed {
    pub units: i64,
}

impl Fixed {
    /// The number that this value stands for.
    pub open spec fn value(self) -> real {
        self.units as real / UNITS_PER_ONE as real
    }
}

} // verus!
