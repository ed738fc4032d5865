//! The errors of the viewer.
use vstd::prelude::*;

verus! {

#[verifier::external_type_specification]
#[verifier::external_body]
pub struct ExIoError(std::io::Error);

/// What can go wrong while talking to git or to the terminal.
#[derive(Debug)]
pub enum AppError {
    NotAGitRepo,
    GitNotFound,
    GitCommandFailed(String),
    MalformedOutput(String),
    Io(std::io::Error),
    Terminal(String),
}

/// The text that `io::Error`'s `Display` writes.
///
/// Formats the error with `format!("{}", ..)`. Nothing is claimed of the
/// text: an OS error's message comes from the platform.
#[verifier::external_body]
fn io_error_text(e: &std::io::Error) -> String {
    format!("{}", e)
}

/// Whether an I/O error is of kind `std::io::ErrorKind::NotFound`, as
/// `std::io::Error::kind` reports it.
///
/// Nothing is claimed of the answer: the kind comes from the platform.
#[verifier::external_body]
fn io_not_found(e: &std::io::Error) -> bool {
    e.kind() == std::io::ErrorKind::NotFound
}

/// The fixed part of each message, before the detail that some variants
/// carry.
pub open spec fn message_prefix(e: AppError) -> Seq<char> {
    match e {
        AppError::NotAGitRepo => "Not inside a git repository"@,
        AppError::GitNotFound => "git command not found — is git installed?"@,
        AppError::GitCommandFailed(_) => "git command failed: "@,
        AppError::MalformedOutput(_) => "malformed git output: "@,
        AppError::Io(_) => "IO error: "@,
        AppError::Terminal(_) => "terminal error: "@,
    }
}

impl AppError {
    /// The message shown to the user: the variant's fixed text followed by
    /// its detail (the text of an I/O error is the platform's).
    pub fn message(&self) -> (r: String)
        ensures
            match self {
                AppError::GitCommandFailed(m) => r@ == message_prefix(*self) + m@,
                AppError::MalformedOutput(m) => r@ == message_prefix(*self) + m@,
                AppError::Terminal(m) => r@ == message_prefix(*self) + m@,
                AppError::Io(_) => r@.len() >= message_prefix(*self).len()
                    && r@.subrange(0, message_prefix(*self).len() as int) == message_prefix(*self),
                _ => r@ == message_prefix(*self),
            },
    {
        match self {
            AppError::NotAGitRepo => "Not inside a git repository".to_owned(),
            AppError::GitNotFound => "git command not found — is git installed?".to_owned(),
            AppError::GitCommandFailed(m) => {
                let mut r = "git command failed: ".to_owned();
                r.append(m.as_str());
                r
            },
            AppError::MalformedOutput(m) => {
                let mut r = "malformed git output: ".to_owned();
                r.append(m.as_str());
                r
            },
            AppError::Io(e) => {
                let mut r = "IO error: ".to_owned();
                let t = io_error_text(e);
                r.append(t.as_str());
                assert(r@.subrange(0, message_prefix(*self).len() as int) =~= message_prefix(*self));
                r
            },
            AppError::Terminal(m) => {
                let mut r = "terminal error: ".to_owned();
                r.append(m.as_str());
                r
            },
        }
    }

    /// The error for an I/O failure while running git: a missing program
    /// means git is not installed, anything else is passed on.
    pub fn from_io(e: std::io::Error, not_found: bool) -> (r: AppError)
        ensures
            not_found ==> r == AppError::GitNotFound,
            !not_found ==> r == AppError::Io(e),
    {
        if not_found {
            AppError::GitNotFound
        } else {
            AppError::Io(e)
        }
    }

    /// The error for an I/O failure while running git, read from the error
    /// itself: `GitNotFound` when its kind is `NotFound`, else the error
    /// passed on as `Io`.
    pub fn from_io_error(e: std::io::Error) -> (r: AppError)
        ensures
            r == AppError::GitNotFound || r == AppError::Io(e),
    {
        let not_found = io_not_found(&e);
        AppError::from_io(e, not_found)
    }
}

} // verus!
