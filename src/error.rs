use vstd::prelude::*;

verus! {

/// What went wrong.
#[derive(Debug, Clone, Copy, PartialEq, Eq, Structural)]
pub enum ErrorType {
    /// Any error that is not a parse error (I/O, for instance).
    Default,
    /// A catalog or a source file could not be parsed.
    Parse,
    /// No quoted literal was found, or its opening quote was the last byte.
    UnterminatedOrMissing,
    /// A backslash stood at the very end of the input, with nothing to escape.
    TrailingBackslash,
    /// The bytes of a literal are not valid UTF-8.
    InvalidUtf8,
}

/// Error type returned by the methods of this library.
#[derive(Debug, PartialEq)]
pub struct Error {
    /// Human-readable description.
    pub msg: String,
    /// Which kind of error this is.
    pub variant: ErrorType,
    /// The 1-based line at which a parse error was found, if any.
    pub line: Option<usize>,
}

/// Result type returned by most functions of this library.
pub type Result<T> = core::result::Result<T, Error>;

impl Error {
    /// Creates a new default error.
    pub fn new(msg: String) -> (r: Error)
        ensures
            r.msg@ == msg@,
            r.variant == ErrorType::Default,
            r.line is None,
    {
        Error { msg, variant: ErrorType::Default, line: None }
    }

    /// Creates a new parse error.
    pub fn parse(msg: String) -> (r: Error)
        ensures
            r.msg@ == msg@,
            r.variant == ErrorType::Parse,
            r.line is None,
    {
        Error { msg, variant: ErrorType::Parse, line: None }
    }

    /// Creates a parse error found at the given 1-based line.
    pub fn parse_at(msg: String, line: usize) -> (r: Error)
        ensures
            r.msg@ == msg@,
            r.variant == ErrorType::Parse,
            r.line == Some(line),
    {
        Error { msg, variant: ErrorType::Parse, line: Some(line) }
    }

    /// Creates an error of the given kind with no line attached.
    pub fn of_kind(variant: ErrorType, msg: String) -> (r: Error)
        ensures
            r.msg@ == msg@,
            r.variant == variant,
            r.line is None,
    {
        Error { msg, variant, line: None }
    }

    /// The full description of the error, as it is shown to a user.
    pub fn description(&self) -> (r: String)
        ensures
            self.variant == ErrorType::Parse ==> r@ == parse_prefix() + self.msg@,
            self.variant != ErrorType::Parse ==> r@ == self.msg@,
    {
        match self.variant {
            ErrorType::Parse => {
                let mut r = String::from_str("Error parsing localization file: ");
                proof { reveal_strlit("Error parsing localization file: "); }
                r.append(self.msg.as_str());
                r
            },
            _ => self.msg.clone(),
        }
    }
}

/// The text that opens the description of a parse error.
pub open spec fn parse_prefix() -> Seq<char> {
    "Error parsing localization file: "@
}

} // verus!
