//! Errors surfaced by the sectionizer.

use vstd::prelude::*;

verus! {

/// The external frame source could not be created or started for an
/// input file; the whole categorization fails, no partial result is
/// returned.
#[derive(Clone, Debug)]
pub enum SectionizerError {
    ExtractionFailure(String),
}

impl SectionizerError {
    /// The failure text, for display by the caller.
    pub open spec fn message_view(self) -> Seq<char> {
        match self {
            SectionizerError::ExtractionFailure(m) => m@,
        }
    }

    /// The failure text, for display by the caller.
    pub fn message(&self) -> (r: &String)
        ensures
            r@ == self.message_view(),
    {
        match self {
            SectionizerError::ExtractionFailure(m) => m,
        }
    }
}

} // verus!
