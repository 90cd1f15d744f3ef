use vstd::prelude::*;

verus! {

/// The errors that routing and applying operations report.
#[derive(Debug)]
pub enum JsonError {
    /// A path does not lead anywhere in the document, or does not fit the operation.
    BadPath,
    /// An operation was applied to a value it cannot change.
    InvalidOperation(String),
    /// An operation carries a parameter of the wrong kind.
    InvalidParameter(String),
}

/// The mathematical form of a `JsonError`.
pub enum JsonErr {
    BadPath,
    InvalidOperation(Seq<char>),
    InvalidParameter(Seq<char>),
}

impl View for JsonError {
    type V = JsonErr;

    open spec fn view(&self) -> JsonErr {
        match self {
            JsonError::BadPath => JsonErr::BadPath,
            JsonError::InvalidOperation(s) => JsonErr::InvalidOperation(s@),
            JsonError::InvalidParameter(s) => JsonErr::InvalidParameter(s@),
        }
    }
}

} // verus!
