//! An error shown to the user together with a way out of it.
use vstd::prelude::*;
use vstd::string::*;

verus! {

/// The kind of an actionable error.
#[derive(Debug, Clone, Copy, PartialEq, Eq, Structural)]
pub enum ErrorCode {
    ReadServersDir,
    ReadPackageJson,
    ParsePackageJson,
    MissingStartScript,
    NonExistentServer,
    DuplicateProject,
    NoNewServers,
    NoServers,
    InquireError,
    InvalidCommand,
}

/// The name a code is shown as.
pub open spec fn code_name(c: ErrorCode) -> Seq<char> {
    match c {
        ErrorCode::ReadServersDir => "ReadServersDir"@,
        ErrorCode::ReadPackageJson => "ReadPackageJson"@,
        ErrorCode::ParsePackageJson => "ParsePackageJson"@,
        ErrorCode::MissingStartScript => "MissingStartScript"@,
        ErrorCode::NonExistentServer => "NonExistentServer"@,
        ErrorCode::DuplicateProject => "DuplicateProject"@,
        ErrorCode::NoNewServers => "NoNewServers"@,
        ErrorCode::NoServers => "NoServers"@,
        ErrorCode::InquireError => "InquireError"@,
        ErrorCode::InvalidCommand => "InvalidCommand"@,
    }
}

impl ErrorCode {
    /// The code's name.
    pub fn to_string(&self) -> (r: String)
        ensures
            r@ == code_name(*self),
    {
        match self {
            ErrorCode::ReadServersDir => String::from_str("ReadServersDir"),
            ErrorCode::ReadPackageJson => String::from_str("ReadPackageJson"),
            ErrorCode::ParsePackageJson => String::from_str("ParsePackageJson"),
            ErrorCode::MissingStartScript => String::from_str("MissingStartScript"),
            ErrorCode::NonExistentServer => String::from_str("NonExistentServer"),
            ErrorCode::DuplicateProject => String::from_str("DuplicateProject"),
            ErrorCode::NoNewServers => String::from_str("NoNewServers"),
            ErrorCode::NoServers => String::from_str("NoServers"),
            ErrorCode::InquireError => String::from_str("InquireError"),
            ErrorCode::InvalidCommand => String::from_str("InvalidCommand"),
        }
    }
}

/// An error with what went wrong and what to try next.
#[derive(Debug)]
pub struct ActionableError {
    pub code: ErrorCode,
    pub message: String,
    pub suggestion: String,
}

impl ActionableError {
    /// The error for a prompt that failed with `message`.
    pub fn prompt_failure(message: String) -> (r: ActionableError)
        ensures
            r.code == ErrorCode::InquireError,
            r.message@ == message@,
            r.suggestion@ == "Try again."@,
    {
        ActionableError {
            code: ErrorCode::InquireError,
            message,
            suggestion: String::from_str("Try again."),
        }
    }

    /// The text shown for the error: code, message, a blank line, then the
    /// suggestion.
    pub fn to_string(&self) -> (r: String)
        ensures
            r@ == code_name(self.code) + ": "@ + self.message@ + "\n\n"@ + self.suggestion@,
    {
        let r = self.code.to_string().concat(": ");
        let r = r.concat(self.message.as_str());
        let r = r.concat("\n\n");
        r.concat(self.suggestion.as_str())
    }
}

} // verus!
