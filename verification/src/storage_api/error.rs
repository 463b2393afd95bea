use vstd::prelude::*;
use vstd::string::StringExecFns;

verus! {

/// Classification of a storage failure.
#[derive(Debug, Clone, Copy, PartialEq, Eq)]
pub enum Kind {
    Io,
    Corrupt,
    Conflict,
    Other,
}

/// Failure returned by a storage backend operation.
///
/// Errors are classified into a closed set of causes that callers can
/// branch on via the `is_*` predicates. The classification is intentionally
/// coarse so adding a new internal failure mode to a backend is
/// never a breaking change for its consumers.
#[derive(Debug, Clone)]
pub struct Error {
    kind: Kind,
    context: String,
    source: Option<String>,
}

/// How a report names each classification.
pub open spec fn kind_text(kind: Kind) -> Seq<char> {
    match kind {
        Kind::Io => "i/o failure"@,
        Kind::Corrupt => "corrupt on-disk state"@,
        Kind::Conflict => "transaction conflict"@,
        Kind::Other => "storage failure"@,
    }
}

/// The report of a failure of `kind` while doing `context`: the
/// classification, then the operation. An attached cause is not part of it;
/// [`Error::source`] gives it apart.
pub open spec fn message_text(kind: Kind, context: Seq<char>) -> Seq<char> {
    kind_text(kind) + ": "@ + context
}

impl Error {
    /// The classification this error carries.
    pub closed spec fn kind_of(&self) -> Kind {
        self.kind
    }

    /// The operation that failed, as the reporter named it.
    pub closed spec fn context_of(&self) -> Seq<char> {
        self.context@
    }

    /// The description of the underlying cause, if one was attached.
    pub closed spec fn source_of(&self) -> Option<Seq<char>> {
        match &self.source {
            Some(s) => Some(s@),
            None => None,
        }
    }

    fn new(kind: Kind, context: &str) -> (e: Self)
        ensures
            e.kind_of() == kind,
            e.context_of() == context@,
            e.source_of() is None,
    {
        Self { kind, context: context.to_owned(), source: None }
    }

    /// Reports an I/O failure against the underlying file or device.
    ///
    /// The context should name the operation attempted, not restate the source error.
    pub fn io(context: &str) -> (e: Self)
        ensures
            e.kind_of() == Kind::Io,
            e.context_of() == context@,
            e.source_of() is None,
    {
        Self::new(Kind::Io, context)
    }

    /// Reports on-disk state that failed a structural or checksum validation.
    pub fn corrupt(context: &str) -> (e: Self)
        ensures
            e.kind_of() == Kind::Corrupt,
            e.context_of() == context@,
            e.source_of() is None,
    {
        Self::new(Kind::Corrupt, context)
    }

    /// Reports a transaction that could not complete because of concurrent activity.
    pub fn conflict(context: &str) -> (e: Self)
        ensures
            e.kind_of() == Kind::Conflict,
            e.context_of() == context@,
            e.source_of() is None,
    {
        Self::new(Kind::Conflict, context)
    }

    /// Reports a backend failure that does not fit the other classifications.
    pub fn other(context: &str) -> (e: Self)
        ensures
            e.kind_of() == Kind::Other,
            e.context_of() == context@,
            e.source_of() is None,
    {
        Self::new(Kind::Other, context)
    }

    /// Attaches a description of the underlying cause of this error.
    pub fn with_source(self, source: &str) -> (e: Self)
        ensures
            e.kind_of() == self.kind_of(),
            e.context_of() == self.context_of(),
            e.source_of() == Some(source@),
    {
        Self { kind: self.kind, context: self.context, source: Some(source.to_owned()) }
    }

    /// Returns `true` if the underlying file or device reported an I/O failure.
    pub fn is_io(&self) -> (r: bool)
        ensures
            r == (self.kind_of() == Kind::Io),
    {
        matches!(self.kind, Kind::Io)
    }

    /// Returns `true` if on-disk state failed validation.
    ///
    /// A corrupt error is never retryable and never the caller's fault.
    pub fn is_corrupt(&self) -> (r: bool)
        ensures
            r == (self.kind_of() == Kind::Corrupt),
    {
        matches!(self.kind, Kind::Corrupt)
    }

    /// Returns `true` if concurrent activity prevented the transaction from completing.
    pub fn is_conflict(&self) -> (r: bool)
        ensures
            r == (self.kind_of() == Kind::Conflict),
    {
        matches!(self.kind, Kind::Conflict)
    }

    /// The classification this error carries.
    pub fn kind(&self) -> (k: Kind)
        ensures
            k == self.kind_of(),
    {
        self.kind
    }

    /// The operation that failed.
    pub fn context(&self) -> (c: &str)
        ensures
            c@ == self.context_of(),
    {
        self.context.as_str()
    }
    /// A description of the failure, for reporting.
    pub fn message(&self) -> (m: String)
        ensures
            m@ == message_text(self.kind_of(), self.context_of()),
    {
        let mut out = match self.kind {
            Kind::Io => "i/o failure".to_string(),
            Kind::Corrupt => "corrupt on-disk state".to_string(),
            Kind::Conflict => "transaction conflict".to_string(),
            Kind::Other => "storage failure".to_string(),
        };
        out.append(": ");
        out.append(self.context.as_str());
        out
    }

    /// The description of the underlying cause, if one was attached.
    pub fn source(&self) -> (s: Option<&str>)
        ensures
            match s {
                Some(t) => self.source_of() == Some(t@),
                None => self.source_of() is None,
            },
    {
        match &self.source {
            Some(t) => Some(t.as_str()),
            None => None,
        }
    }
}

} // verus!
