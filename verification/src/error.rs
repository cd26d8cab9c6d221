use vstd::prelude::*;

verus! {

/// The single failure the crate can report: a builder was finalized
/// although no data element had been supplied.
#[derive(Debug, Clone, Copy, PartialEq, Eq, Structural)]
pub enum Error {
    /// The builder's data field was never set.
    MissingDataField,
}

impl Error {
    /// A short description of the error.
    pub fn message(&self) -> (s: &'static str)
        ensures
            s@ == "missing data field"@,
    {
        "missing data field"
    }
}

} // verus!
