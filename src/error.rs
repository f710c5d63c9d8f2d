//! The errors that abort a build.
use vstd::prelude::*;
use crate::text::append_str;

verus! {

/// A failure reported by an expression engine, with where it happened.
#[derive(Debug)]
pub struct ScriptingError {
    pub message: String,
    pub source: String,
}

/// Why a build stopped. Any error at any depth aborts the whole build.
#[derive(Debug)]
pub enum Error {
    /// Reading or writing a file failed.
    Io { message: String },
    /// The document uses a construct wrongly; the message says how.
    UserError { message: String },
    /// An expression engine failed, once or several times.
    ScriptingError(Vec<ScriptingError>),
    /// The build needs the contents of `path`, which were not supplied: load
    /// them and build again.
    SourceNotLoaded { path: String },
}

/// A user error with the given message.
pub fn err(message: String) -> (r: Error)
    ensures
        r matches Error::UserError { message: m } && m@ == message@,
{
    Error::UserError { message }
}

impl Error {
    /// Whether both are user errors with the same message; errors of any other
    /// kind are never equal.
    pub open spec fn same(&self, other: &Error) -> bool {
        match (self, other) {
            (Error::UserError { message: a }, Error::UserError { message: b }) => a@ == b@,
            _ => false,
        }
    }

    /// Compares two errors as `same` does.
    pub fn eq(&self, other: &Error) -> (r: bool)
        ensures
            r == self.same(other),
    {
        match (self, other) {
            (Error::UserError { message: a }, Error::UserError { message: b }) => *a == *b,
            _ => false,
        }
    }

    /// A human-readable description of the error.
    pub fn message(&self) -> (r: String)
        ensures
            self matches Error::UserError { message: m } ==> r@ == m@,
            self matches Error::Io { message: m } ==> r@ == m@,
    {
        match self {
            Error::Io { message } => message.clone(),
            Error::UserError { message } => message.clone(),
            Error::ScriptingError(items) => {
                let mut out = String::new();
                append_str(&mut out, "Many errors:\n");
                let mut i: usize = 0;
                while i < items.len()
                    decreases items.len() - i,
                {
                    append_str(&mut out, "`");
                    append_str(&mut out, items[i].message.as_str());
                    append_str(&mut out, "` in [");
                    append_str(&mut out, items[i].source.as_str());
                    append_str(&mut out, "]\n");
                    i = i + 1;
                }
                out
            },
            Error::SourceNotLoaded { path } => {
                let mut out = String::new();
                append_str(&mut out, "The contents of '");
                append_str(&mut out, path.as_str());
                append_str(&mut out, "' were not supplied.");
                out
            },
        }
    }
}

impl ScriptingError {
    /// The error as a build error of its own.
    pub fn into_error(self) -> (r: Error)
        ensures
            r matches Error::ScriptingError(v) && v@ == seq![self],
    {
        let mut v = Vec::new();
        v.push(self);
        Error::ScriptingError(v)
    }
}

} // verus!
