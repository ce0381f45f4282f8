use vstd::prelude::*;

verus! {

/// Why a filter could not produce a result.
#[derive(Clone, Copy, Debug, PartialEq, Eq, Structural)]
pub enum Error {
    /// The root of the document has a shape that the filter cannot work on.
    UnsupportedInputShape,
    /// A value found under the searched key does not convert to the requested type.
    ConversionMismatch,
}

impl Error {
    /// A sentence that says which filter failed, and why.
    pub fn message(&self) -> (r: &'static str)
        ensures
            *self == Error::UnsupportedInputShape ==> r@
                == "Flatten can only be used on objects or arrays"@,
            *self == Error::ConversionMismatch ==> r@
                == "Match found a value that does not convert to the requested type"@,
    {
        match self {
            Error::UnsupportedInputShape => "Flatten can only be used on objects or arrays",
            Error::ConversionMismatch => "Match found a value that does not convert to the requested type",
        }
    }
}

} // verus!
