//! The errors of a differential copy.

use vstd::prelude::*;
use vstd::string::StringExecFns;

verus! {

/// Why a differential copy could not run. Each kind carries a short message
/// and, where there is one, the underlying cause.
#[derive(Debug)]
pub enum Error {
    /// A region could not be mapped.
    MappingError { message: String, cause: Option<String> },
    /// The configuration was rejected: the chunk size was zero.
    InvalidConfig { message: String, cause: Option<String> },
}

impl Error {
    /// The short message of either kind.
    pub open spec fn message_view(self) -> Seq<char> {
        match self {
            Error::MappingError { message, .. } => message@,
            Error::InvalidConfig { message, .. } => message@,
        }
    }

    /// The underlying cause of either kind, if it has one.
    pub open spec fn cause_view(self) -> Option<Seq<char>> {
        match self {
            Error::MappingError { cause, .. } => match cause {
                Some(c) => Some(c@),
                None => None,
            },
            Error::InvalidConfig { cause, .. } => match cause {
                Some(c) => Some(c@),
                None => None,
            },
        }
    }

    /// The two-tier text of an error: the message alone, or the message, the
    /// words ": caused by: " and the cause.
    pub open spec fn describe_view(self) -> Seq<char> {
        match self.cause_view() {
            Some(c) => self.message_view() + ": caused by: "@ + c,
            None => self.message_view(),
        }
    }

    /// The error for a chunk size of zero.
    pub fn zero_chunk_size() -> (e: Error)
        ensures
            e is InvalidConfig,
            e.message_view() == "chunk size must be positive"@,
            e.cause_view() is None,
    {
        Error::InvalidConfig {
            message: String::from_str("chunk size must be positive"),
            cause: None,
        }
    }

    /// A mapping failure with its message and cause.
    pub fn mapping(message: String, cause: Option<String>) -> (e: Error)
        ensures
            e == (Error::MappingError { message, cause }),
    {
        Error::MappingError { message, cause }
    }

    /// Whether this is a configuration error.
    pub fn is_invalid_config(&self) -> (b: bool)
        ensures
            b == (*self is InvalidConfig),
    {
        match self {
            Error::InvalidConfig { .. } => true,
            Error::MappingError { .. } => false,
        }
    }

    /// Whether this is a mapping error.
    pub fn is_mapping_error(&self) -> (b: bool)
        ensures
            b == (*self is MappingError),
    {
        match self {
            Error::MappingError { .. } => true,
            Error::InvalidConfig { .. } => false,
        }
    }

    /// The text of the error for display.
    pub fn describe(&self) -> (text: String)
        ensures
            text@ == self.describe_view(),
    {
        let (message, cause) = match self {
            Error::MappingError { message, cause } => (message, cause),
            Error::InvalidConfig { message, cause } => (message, cause),
        };
        let mut text = String::from_str(message.as_str());
        match cause {
            Some(c) => {
                text.append(": caused by: ");
                text.append(c.as_str());
            },
            None => {},
        }
        text
    }
}

} // verus!
