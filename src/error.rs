use vstd::prelude::*;

verus! {

/// How a failure reported by the object store is classified.
#[derive(Debug, Clone, Copy, PartialEq, Eq, Structural)]
pub enum BackendCode {
    /// The store could not find the object or reference.
    NotFound,
    /// The store refused to create an object or reference that exists.
    Exists,
    /// Any other failure of the store or of the transport.
    Other,
}

/// The classified errors of every repository operation.
#[derive(Debug, Clone)]
pub enum Error {
    /// A branch, tag, commit or remote that the call names is absent.
    NotFound(String),
    /// A name or commit that the call would create is taken.
    AlreadyExists(String),
    /// A structural assumption of the call does not hold: a merge commit where
    /// the history must be linear, an empty history, a detached HEAD where a
    /// branch is needed, or malformed semantic-commit text.
    InvalidRepository(String),
    /// The object store or the transport failed; the cause is kept as text.
    BackendFailure(String),
    /// A failure that fits no other kind.
    Unknown(String),
}

impl Error {
    /// Classifies a failure of the object store by its code.
    pub fn from_backend(code: BackendCode, message: String) -> (r: Error)
        ensures
            code == BackendCode::NotFound ==> r is NotFound,
            code == BackendCode::Exists ==> r is AlreadyExists,
            code == BackendCode::Other ==> r is BackendFailure,
            match r {
                Error::NotFound(m) => m@ == message@,
                Error::AlreadyExists(m) => m@ == message@,
                Error::BackendFailure(m) => m@ == message@,
                _ => false,
            },
    {
        match code {
            BackendCode::NotFound => Error::NotFound(message),
            BackendCode::Exists => Error::AlreadyExists(message),
            BackendCode::Other => Error::BackendFailure(message),
        }
    }

    /// The kind of the error as a short lowercase word.
    pub fn kind(&self) -> (r: &'static str)
        ensures
            self is NotFound ==> r@ == "not found"@,
            self is AlreadyExists ==> r@ == "already exists"@,
            self is InvalidRepository ==> r@ == "invalid repository"@,
            self is BackendFailure ==> r@ == "backend failure"@,
            self is Unknown ==> r@ == "unknown"@,
    {
        match self {
            Error::NotFound(_) => "not found",
            Error::AlreadyExists(_) => "already exists",
            Error::InvalidRepository(_) => "invalid repository",
            Error::BackendFailure(_) => "backend failure",
            Error::Unknown(_) => "unknown",
        }
    }
}

} // verus!
