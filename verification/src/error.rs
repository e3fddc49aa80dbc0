//! The ways in which encoding or decoding a message can fail.

use vstd::prelude::*;

verus! {

/// Why a message could not be encoded or decoded.
#[derive(Clone, Copy, Debug, PartialEq, Eq, Structural)]
pub enum DnsError {
    /// A field would have to be read from beyond the end of the buffer.
    TruncatedMessage,
    /// A label's length byte announces more bytes than the buffer holds.
    InvalidLabel,
    /// A question's type is neither A nor AAAA.
    InvalidQuestionType,
    /// Fewer bytes remain than the fixed part of a resource record takes.
    DataTooShort,
    /// A resource record's type is neither A nor AAAA.
    UnsupportedRecordType,
    /// A resource record's declared data length differs from the size its type fixes.
    RDataLengthMismatch,
    /// A label of a name is longer than a single length byte can say.
    LabelTooLong,
    /// More questions were asked for than the 16-bit question count can say.
    TooManyQuestions,
}

/// What to tell a person about an error.
pub open spec fn message_text(e: DnsError) -> Seq<char> {
    match e {
        DnsError::TruncatedMessage => "message is truncated"@,
        DnsError::InvalidLabel => "Invalid name"@,
        DnsError::InvalidQuestionType => "Invalid question"@,
        DnsError::DataTooShort => "data is too short"@,
        DnsError::UnsupportedRecordType => "unsupported record type"@,
        DnsError::RDataLengthMismatch => "record data length does not match its type"@,
        DnsError::LabelTooLong => "label is too long"@,
        DnsError::TooManyQuestions => "too many questions"@,
    }
}

impl DnsError {
    /// What to tell a person about this error.
    pub fn message(&self) -> (text: &'static str)
        ensures
            text@ == message_text(*self),
    {
        match self {
            DnsError::TruncatedMessage => "message is truncated",
            DnsError::InvalidLabel => "Invalid name",
            DnsError::InvalidQuestionType => "Invalid question",
            DnsError::DataTooShort => "data is too short",
            DnsError::UnsupportedRecordType => "unsupported record type",
            DnsError::RDataLengthMismatch => "record data length does not match its type",
            DnsError::LabelTooLong => "label is too long",
            DnsError::TooManyQuestions => "too many questions",
        }
    }
}

} // verus!
