use vstd::prelude::*;

verus! {

/// Failures of library operations, kept apart by cause.
#[derive(Clone, Debug, PartialEq, Eq)]
pub enum LibraryError {
    /// A directory or archive could not be read; `context` names the operation and path.
    Io { context: String },
    /// The chapter ordering at `index` holds a pattern that does not compile.
    InvalidOrdering { index: usize },
    /// No series, chapter, ordering or library has the requested identifier.
    NotFound { what: String },
}

/// The text that describes a failure.
pub open spec fn message_of(e: LibraryError) -> Seq<char> {
    match e {
        LibraryError::Io { context } => "I/O failure: "@ + context@,
        LibraryError::InvalidOrdering { .. } => "invalid chapter ordering pattern"@,
        LibraryError::NotFound { what } => "not found: "@ + what@,
    }
}

impl LibraryError {
    /// A human-readable description of the failure.
    pub fn message(&self) -> (r: String)
        ensures
            r@ == message_of(*self),
    {
        match self {
            LibraryError::Io { context } => {
                let mut s = "I/O failure: ".to_owned();
                s.append(context.as_str());
                s
            },
            LibraryError::InvalidOrdering { .. } => "invalid chapter ordering pattern".to_owned(),
            LibraryError::NotFound { what } => {
                let mut s = "not found: ".to_owned();
                s.append(what.as_str());
                s
            },
        }
    }
}

/// Turns a library error into its message, for callers that report errors as text.
pub trait StringResult<T> {
    fn str_err(self) -> Result<T, String>;
}

impl<T> StringResult<T> for Result<T, LibraryError> {
    fn str_err(self) -> Result<T, String> {
        match self {
            Ok(v) => Ok(v),
            Err(e) => Err(e.message()),
        }
    }
}

} // verus!
