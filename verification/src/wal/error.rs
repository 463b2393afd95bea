use vstd::prelude::*;
use vstd::string::StringExecFns;

verus! {

/// Classification of a write-ahead log failure.
#[derive(Debug, Clone, Copy, PartialEq, Eq)]
pub enum ErrorKind {
    /// The log has stopped accepting writes.
    Shutdown,
    /// The store refused a durably logged batch.
    Apply,
    /// The device or filesystem failed.
    Io,
    /// The log holds bytes this crate could not have written.
    Corrupt,
    /// A record ends before it is complete.
    Truncated,
}

/// Failure returned by a write-ahead log operation.
#[derive(Debug, Clone)]
pub struct Error {
    kind: ErrorKind,
    detail: Option<String>,
    source: Option<String>,
}

/// How a report names each classification.
pub open spec fn kind_text(kind: ErrorKind) -> Seq<char> {
    match kind {
        ErrorKind::Shutdown => "log is shut down and accepts no writes"@,
        ErrorKind::Apply => "applying a logged batch failed"@,
        ErrorKind::Io => "log i/o failed"@,
        ErrorKind::Corrupt => "corrupt log record"@,
        ErrorKind::Truncated => "log record ends mid-record"@,
    }
}

/// The report of a failure of `kind`: the classification, then what the
/// reporter said of it, where it said something: the operation that failed
/// for an i/o failure, a detail otherwise. The device's own description of
/// an i/o failure is not part of it; [`Error::source`] gives it apart.
pub open spec fn message_text(kind: ErrorKind, detail: Option<Seq<char>>) -> Seq<char> {
    kind_text(kind) + match detail {
        Some(d) => if kind is Io {
            " while "@ + d
        } else {
            ": "@ + d
        },
        None => Seq::<char>::empty(),
    }
}

/// An owned copy of `s`.
fn copy_text(s: &String) -> (c: String)
    ensures
        c@ == s@,
{
    s.as_str().to_string()
}

impl Error {
    /// The classification this error carries.
    pub closed spec fn kind_of(&self) -> ErrorKind {
        self.kind
    }

    /// What the reporter said of the failure, if anything.
    pub closed spec fn detail_of(&self) -> Option<Seq<char>> {
        match &self.detail {
            Some(d) => Some(d@),
            None => None,
        }
    }

    /// The underlying cause's own description, if one was attached.
    pub closed spec fn source_of(&self) -> Option<Seq<char>> {
        match &self.source {
            Some(s) => Some(s@),
            None => None,
        }
    }

    /// Reports a failure of the underlying device or filesystem while doing
    /// what `context` names, with the device's own description of it.
    pub fn io(context: &str, source: &str) -> (e: Self)
        ensures
            e.kind_of() == ErrorKind::Io,
            e.detail_of() == Some(context@),
            e.source_of() == Some(source@),
    {
        Self { kind: ErrorKind::Io, detail: Some(context.to_owned()), source: Some(source.to_owned()) }
    }

    /// Reports a log that has stopped accepting writes.
    pub fn shutdown() -> (e: Self)
        ensures
            e.kind_of() == ErrorKind::Shutdown,
            e.detail_of() is None,
            e.source_of() is None,
    {
        Self { kind: ErrorKind::Shutdown, detail: None, source: None }
    }

    /// Reports a store that refused a durably logged batch.
    pub fn apply(detail: &str) -> (e: Self)
        ensures
            e.kind_of() == ErrorKind::Apply,
            e.detail_of() == Some(detail@),
            e.source_of() is None,
    {
        Self { kind: ErrorKind::Apply, detail: Some(detail.to_owned()), source: None }
    }

    /// Reports log content that cannot be what this crate wrote.
    pub fn corrupt(detail: &str) -> (e: Self)
        ensures
            e.kind_of() == ErrorKind::Corrupt,
            e.detail_of() == Some(detail@),
            e.source_of() is None,
    {
        Self { kind: ErrorKind::Corrupt, detail: Some(detail.to_owned()), source: None }
    }

    /// Reports a record that ends before it is complete.
    pub fn truncated() -> (e: Self)
        ensures
            e.kind_of() == ErrorKind::Truncated,
            e.detail_of() is None,
            e.source_of() is None,
    {
        Self { kind: ErrorKind::Truncated, detail: None, source: None }
    }

    /// The error each writer of a failed batch receives: the batch's own
    /// failure, since every write in the batch shared its fate.
    pub fn batch_failed(&self) -> (e: Self)
        ensures
            e.kind_of() == self.kind_of(),
            e.detail_of() == self.detail_of(),
            e.source_of() == self.source_of(),
    {
        let detail = match &self.detail {
            Some(d) => Some(copy_text(d)),
            None => None,
        };
        let source = match &self.source {
            Some(s) => Some(copy_text(s)),
            None => None,
        };
        Self { kind: self.kind, detail, source }
    }

    /// Returns `true` if the device or filesystem failed.
    pub fn is_io(&self) -> (r: bool)
        ensures
            r == (self.kind_of() == ErrorKind::Io),
    {
        matches!(self.kind, ErrorKind::Io)
    }

    /// Returns `true` if the log holds bytes this crate could not have written.
    pub fn is_corrupt(&self) -> (r: bool)
        ensures
            r == (self.kind_of() == ErrorKind::Corrupt),
    {
        matches!(self.kind, ErrorKind::Corrupt)
    }

    /// Returns `true` if a record ends before it is complete.
    pub fn is_truncated(&self) -> (r: bool)
        ensures
            r == (self.kind_of() == ErrorKind::Truncated),
    {
        matches!(self.kind, ErrorKind::Truncated)
    }

    /// Returns `true` if the log has stopped accepting writes.
    pub fn is_shutdown(&self) -> (r: bool)
        ensures
            r == (self.kind_of() == ErrorKind::Shutdown),
    {
        matches!(self.kind, ErrorKind::Shutdown)
    }

    /// A description of the failure, for reporting.
    pub fn message(&self) -> (m: String)
        ensures
            m@ == message_text(self.kind_of(), self.detail_of()),
    {
        let mut out = match self.kind {
            ErrorKind::Shutdown => "log is shut down and accepts no writes".to_string(),
            ErrorKind::Apply => "applying a logged batch failed".to_string(),
            ErrorKind::Io => "log i/o failed".to_string(),
            ErrorKind::Corrupt => "corrupt log record".to_string(),
            ErrorKind::Truncated => "log record ends mid-record".to_string(),
        };
        match &self.detail {
            Some(d) => {
                match self.kind {
                    ErrorKind::Io => out.append(" while "),
                    _ => out.append(": "),
                }
                out.append(d.as_str());
            },
            None => {},
        }
        out
    }

    /// The device's own description of an i/o failure, if there is one.
    pub fn source(&self) -> (s: Option<&str>)
        ensures
            match s {
                Some(t) => self.source_of() == Some(t@),
                None => self.source_of() is None,
            },
    {
        match &self.source {
            Some(t) => Some(t.as_str()),
            None => None,
        }
    }
}

} // verus!
