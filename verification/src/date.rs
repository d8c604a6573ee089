use vstd::prelude::*;

verus! {

/// A calendar date held as plain year, month and day numbers.
///
/// The matching engine only carries dates through and compares them for
/// equality; it performs no calendar arithmetic and does not check that the
/// fields denote an existing day.  Callers that need parsing or validation
/// convert from their own calendar library at the boundary.
#[derive(Clone, Copy, Debug, PartialEq, Eq, Structural)]
pub struct Date {
    pub year: i32,
    pub month: u32,
    pub day: u32,
}

impl Date {
    /// Builds a date from its three fields.
    pub fn new(year: i32, month: u32, day: u32) -> (r: Date)
        ensures
            r == (Date { year, month, day }),
    {
        Date { year, month, day }
    }
}

} // verus!
