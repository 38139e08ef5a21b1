//! Errors that several stages share.
use vstd::prelude::*;

verus! {

/// What can go wrong with a sheet or a project.
#[derive(Clone, Debug, PartialEq, Eq)]
pub enum IsgError {
    /// The bytes are not what they should be.
    Corrupt(String),
    /// The sheet has more pixels than a mask can index.
    TooLarge,
    /// The caller gave up.
    Cancelled,
}

/// The message of an error.
pub open spec fn message_of(e: IsgError) -> Seq<char> {
    match e {
        IsgError::Corrupt(m) => "corrupt data: "@ + m@,
        IsgError::TooLarge => "sheet too large"@,
        IsgError::Cancelled => "cancelled"@,
    }
}

impl IsgError {
    /// The error as text.
    pub fn message(&self) -> (r: String)
        ensures
            r@ == message_of(*self),
    {
        match self {
            IsgError::Corrupt(m) => {
                let mut s = String::from_str("corrupt data: ");
                s.append(m.as_str());
                s
            },
            IsgError::TooLarge => String::from_str("sheet too large"),
            IsgError::Cancelled => String::from_str("cancelled"),
        }
    }
}

} // verus!
