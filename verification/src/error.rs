//! The ways in which building a domain name can fail.

use vstd::prelude::*;

verus! {

/// Why a text or a byte sequence was refused as a domain name.
///
/// Every failure is a property of the input alone: the same input under the
/// same [`Config`](crate::Config) always gives the same error.
#[derive(Debug, Clone, Copy, PartialEq, Eq, Hash)]
pub enum Error {
    /// The text does not end with a dot although the policy asks for one.
    TrailingDotMissing,
    /// The byte sequence does not end with the nul terminator.
    TrailingNulCharMissing,
    /// A label holds a character outside the allowed alphabet.
    InvalidLabelChar,
    /// The length bytes do not match the bytes that follow them.
    InvalidStructure,
    /// The whole name is longer than the policy allows.
    TooLongDomainName,
    /// One label is longer than the policy allows.
    TooLongLabel,
    /// A label does not begin with a letter although the policy asks for one.
    LabelDoesNotStartWithLetter,
    /// A label begins with a hyphen although the policy forbids it.
    LabelCannotStartWithHyphen,
    /// A label ends with a hyphen although the policy forbids it.
    LabelCannotEndWithHyphen,
    /// A label is empty, as between two dots that follow each other.
    EmptyLabel,
}

impl Error {
    /// The text that [`Error::message`] gives for each error.
    pub open spec fn message_text(self) -> Seq<char> {
        match self {
            Error::TrailingDotMissing => "the trailing dot of the FQDN string is missing"@,
            Error::TrailingNulCharMissing => "the trailing nul byte of the FQDN bytes is missing"@,
            Error::InvalidLabelChar => "invalid char found in FQDN"@,
            Error::InvalidStructure => "invalid FQDN byte sequence"@,
            Error::TooLongDomainName => "too long FQDN"@,
            Error::TooLongLabel => "too long label found in FQDN"@,
            Error::LabelDoesNotStartWithLetter => "FQDN label must start with a letter"@,
            Error::LabelCannotStartWithHyphen => "FQDN label can\u{2019}t start with a hyphen"@,
            Error::LabelCannotEndWithHyphen => "FQDN label can\u{2019}t end with a hyphen"@,
            Error::EmptyLabel => "empty label found in FQDN"@,
        }
    }

    /// A short description of the error, fit for a log line.
    pub fn message(&self) -> (text: &'static str)
        ensures
            text@ == self.message_text(),
    {
        match self {
            Error::TrailingDotMissing => "the trailing dot of the FQDN string is missing",
            Error::TrailingNulCharMissing => "the trailing nul byte of the FQDN bytes is missing",
            Error::InvalidLabelChar => "invalid char found in FQDN",
            Error::InvalidStructure => "invalid FQDN byte sequence",
            Error::TooLongDomainName => "too long FQDN",
            Error::TooLongLabel => "too long label found in FQDN",
            Error::LabelDoesNotStartWithLetter => "FQDN label must start with a letter",
            Error::LabelCannotStartWithHyphen => "FQDN label can\u{2019}t start with a hyphen",
            Error::LabelCannotEndWithHyphen => "FQDN label can\u{2019}t end with a hyphen",
            Error::EmptyLabel => "empty label found in FQDN",
        }
    }
}

} // verus!
