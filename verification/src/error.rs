//! The ways in which a block evaluation fails.

use vstd::prelude::*;

verus! {

/// Why a stage gave no output. A stage either produces its whole output for a
/// block or fails with one of these; nothing partial is handed out.
#[derive(Clone, Copy, Debug, PartialEq, Eq, Structural)]
pub enum Error {
    /// A configured address is no hexadecimal text.
    MalformedAddress,
    /// An address does not have twenty bytes.
    AddressLength,
    /// An address was registered under two different roles.
    RoleConflict,
    /// A decoder reads a topic or a data word that its own shape leaves out.
    MalformedDecoder,
    /// The ordinals of a block's log entries do not strictly increase.
    OrdinalOrder,
    /// A change was applied to a store at an ordinal below that of an earlier
    /// change of the same block.
    OrdinalRegression,
    /// A decoded numeric field is no decimal text.
    MalformedAmount,
    /// A store key has another number of segments than its schema names.
    KeyShape,
    /// More row operations than the sink's ordinal counter can number.
    TooManyRows,
}

impl Error {
    /// What went wrong, in words.
    pub open spec fn text(self) -> Seq<char> {
        match self {
            Error::MalformedAddress => "a configured address is no hexadecimal text"@,
            Error::AddressLength => "an address does not have twenty bytes"@,
            Error::RoleConflict => "an address is registered under two roles"@,
            Error::MalformedDecoder => "a decoder reads outside the shape it describes"@,
            Error::OrdinalOrder => "the ordinals of the logs do not strictly increase"@,
            Error::OrdinalRegression => "a change was applied below an earlier ordinal"@,
            Error::MalformedAmount => "a numeric field is no decimal text"@,
            Error::KeyShape => "a store key has the wrong number of segments"@,
            Error::TooManyRows => "the changeset needs too many row operations"@,
        }
    }

    /// What went wrong, in words.
    pub fn message(&self) -> (text: &'static str)
        ensures
            text@ == self.text(),
    {
        match self {
            Error::MalformedAddress => "a configured address is no hexadecimal text",
            Error::AddressLength => "an address does not have twenty bytes",
            Error::RoleConflict => "an address is registered under two roles",
            Error::MalformedDecoder => "a decoder reads outside the shape it describes",
            Error::OrdinalOrder => "the ordinals of the logs do not strictly increase",
            Error::OrdinalRegression => "a change was applied below an earlier ordinal",
            Error::MalformedAmount => "a numeric field is no decimal text",
            Error::KeyShape => "a store key has the wrong number of segments",
            Error::TooManyRows => "the changeset needs too many row operations",
        }
    }
}

} // verus!
