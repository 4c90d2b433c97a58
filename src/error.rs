use vstd::prelude::*;

verus! {

/// The specific type of an error.
#[derive(Debug, Clone, Copy, PartialEq, Eq, Structural)]
pub enum ErrorKind {
    /// The number of values does not match the `dx * dy` dimensions of the grid.
    BadDimension,
    /// Isobands need at least two thresholds.
    InsufficientThresholds,
    /// The stitching state lost track of a fragment.
    Unexpected,
    /// A grid value could not be read as a number.
    BadCast,
}

/// An error that can occur when computing contours.
#[derive(Debug, Clone, Copy, PartialEq, Eq, Structural)]
pub struct Error {
    pub kind: ErrorKind,
}

impl Error {
    pub open spec fn spec_kind(&self) -> ErrorKind {
        self.kind
    }

    /// Builds an error of the given kind.
    pub fn new(kind: ErrorKind) -> (r: Error)
        ensures
            r.spec_kind() == kind,
    {
        Error { kind }
    }

    /// Return the specific type of this error.
    pub fn kind(&self) -> (r: &ErrorKind)
        ensures
            *r == self.spec_kind(),
    {
        &self.kind
    }

    /// Unwrap this error into its underlying type.
    pub fn into_kind(self) -> (r: ErrorKind)
        ensures
            r == self.spec_kind(),
    {
        self.kind
    }

    /// A short description of the error.
    pub fn message(&self) -> (r: String) {
        match self.kind {
            ErrorKind::BadDimension => String::from_str(
                "The length of provided values doesn't match the (dx, dy) dimensions of the grid",
            ),
            ErrorKind::InsufficientThresholds => String::from_str(
                "At least two thresholds are needed to compute isobands",
            ),
            ErrorKind::Unexpected => String::from_str("Unexpected error while computing contours"),
            ErrorKind::BadCast => String::from_str("Failed to cast grid value to Float"),
        }
    }
}

} // verus!
