use vstd::prelude::*;

verus! {

/// Possible reasons of an [`Error`].
#[derive(Clone, Copy, Debug, PartialEq, Eq, Structural)]
pub enum ErrorKind {
    /// The data provided is invalid.
    InvalidData,
    /// There is not enough data to perform the requested operation.
    NotEnoughData,
    /// Buffer is too small.
    BufferSmall,
}

/// Representation of an error: it carries its kind and nothing else.
#[derive(Debug)]
pub struct Error {
    reason: ErrorKind,
}

impl Error {
    /// The kind of this error, for use in contracts.
    pub closed spec fn spec_kind(&self) -> ErrorKind {
        self.reason
    }

    /// Creates a new `Error` instance.
    pub fn new(reason: ErrorKind) -> (r: Self)
        ensures
            r.spec_kind() == reason,
    {
        Self { reason }
    }

    /// Returns the reason of this error.
    pub fn kind(&self) -> (r: ErrorKind)
        ensures
            r == self.spec_kind(),
    {
        self.reason
    }
}

/// Two errors are equal when their kinds are.
impl PartialEq for Error {
    fn eq(&self, other: &Self) -> (r: bool)
        ensures
            r == (self.spec_kind() == other.spec_kind()),
    {
        self.reason == other.reason
    }
}

impl vstd::std_specs::cmp::PartialEqSpecImpl for Error {
    open spec fn obeys_eq_spec() -> bool {
        true
    }

    open spec fn eq_spec(&self, other: &Error) -> bool {
        self.spec_kind() == other.spec_kind()
    }
}

} // verus!
