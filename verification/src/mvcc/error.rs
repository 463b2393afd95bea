use vstd::prelude::*;
use vstd::string::StringExecFns;

use crate::storage_api::Error as StorageError;
use crate::text::{decimal, push_decimal};

verus! {

/// The report of a store failure of `kind`: what went wrong, with the
/// revisions involved in decimal, and after a colon what the reporter said
/// of it, where there is something. A backend failure's own report is not
/// part of it; [`Error::source`] gives that failure apart.
pub open spec fn message_text(kind: ErrorKind, detail: Option<Seq<char>>) -> Seq<char> {
    match kind {
        ErrorKind::Compacted { requested, watermark } => "revision "@ + decimal(requested as nat)
            + " has been compacted away; oldest readable is "@ + decimal(watermark as nat),
        ErrorKind::FutureRevision { requested, current } => "revision "@ + decimal(requested as nat)
            + " is ahead of the current revision "@ + decimal(current as nat),
        ErrorKind::Corrupt => "corrupt store state"@ + match detail {
            Some(d) => ": "@ + d,
            None => Seq::<char>::empty(),
        },
        ErrorKind::Storage => "storage backend failure"@,
    }
}

/// Classification of a store failure.
pub enum ErrorKind {
    /// The requested revision has been compacted away.
    Compacted { requested: u64, watermark: u64 },
    /// The requested revision has not happened yet.
    FutureRevision { requested: u64, current: u64 },
    /// The backend holds state this store cannot interpret.
    Corrupt,
    /// The storage backend failed.
    Storage,
}

/// Failure returned by a [`KvStore`](crate::mvcc::KvStore) operation.
#[derive(Debug)]
pub struct Error {
    kind: Kind,
    detail: Option<String>,
    source: Option<StorageError>,
}

#[derive(Debug, Clone, Copy)]
enum Kind {
    Compacted { requested: u64, watermark: u64 },
    FutureRevision { requested: u64, current: u64 },
    Corrupt,
    Storage,
}

impl Error {
    /// The classification this error carries.
    pub closed spec fn kind_of(&self) -> ErrorKind {
        match self.kind {
            Kind::Compacted { requested, watermark } => ErrorKind::Compacted { requested, watermark },
            Kind::FutureRevision { requested, current } => ErrorKind::FutureRevision { requested, current },
            Kind::Corrupt => ErrorKind::Corrupt,
            Kind::Storage => ErrorKind::Storage,
        }
    }

    /// What the reporter said of the failure, if anything.
    pub closed spec fn detail_of(&self) -> Option<Seq<char>> {
        match &self.detail {
            Some(d) => Some(d@),
            None => None,
        }
    }

    /// The backend failure this error reports, if it reports one.
    pub closed spec fn source_of(&self) -> Option<StorageError> {
        self.source
    }

    pub fn compacted(requested: u64, watermark: u64) -> (e: Self)
        ensures
            e.kind_of() == (ErrorKind::Compacted { requested, watermark }),
            e.detail_of() is None,
            e.source_of() is None,
    {
        Self { kind: Kind::Compacted { requested, watermark }, detail: None, source: None }
    }

    pub fn future_revision(requested: u64, current: u64) -> (e: Self)
        ensures
            e.kind_of() == (ErrorKind::FutureRevision { requested, current }),
            e.detail_of() is None,
            e.source_of() is None,
    {
        Self { kind: Kind::FutureRevision { requested, current }, detail: None, source: None }
    }

    pub fn corrupt(detail: &str) -> (e: Self)
        ensures
            e.kind_of() == ErrorKind::Corrupt,
            e.detail_of() == Some(detail@),
            e.source_of() is None,
    {
        Self { kind: Kind::Corrupt, detail: Some(detail.to_owned()), source: None }
    }

    pub fn storage(source: StorageError) -> (e: Self)
        ensures
            e.kind_of() == ErrorKind::Storage,
            e.detail_of() is None,
            e.source_of() == Some(source),
    {
        Self { kind: Kind::Storage, detail: None, source: Some(source) }
    }

    /// Returns `true` if the requested revision has been compacted away.
    pub fn is_compacted(&self) -> (r: bool)
        ensures
            r == (self.kind_of() is Compacted),
    {
        matches!(self.kind, Kind::Compacted { .. })
    }

    /// Returns `true` if the requested revision has not happened yet.
    pub fn is_future_revision(&self) -> (r: bool)
        ensures
            r == (self.kind_of() is FutureRevision),
    {
        matches!(self.kind, Kind::FutureRevision { .. })
    }

    /// Returns `true` if the backend holds state this store cannot interpret.
    pub fn is_corrupt(&self) -> (r: bool)
        ensures
            r == (self.kind_of() is Corrupt),
    {
        matches!(self.kind, Kind::Corrupt)
    }

    /// Returns `true` if the storage backend failed.
    pub fn is_storage(&self) -> (r: bool)
        ensures
            r == (self.kind_of() is Storage),
    {
        matches!(self.kind, Kind::Storage)
    }

    /// A description of the failure, for reporting.
    pub fn message(&self) -> (m: String)
        ensures
            m@ == message_text(self.kind_of(), self.detail_of()),
    {
        match self.kind {
            Kind::Compacted { requested, watermark } => {
                let mut out = "revision ".to_string();
                push_decimal(&mut out, requested);
                out.append(" has been compacted away; oldest readable is ");
                push_decimal(&mut out, watermark);
                out
            },
            Kind::FutureRevision { requested, current } => {
                let mut out = "revision ".to_string();
                push_decimal(&mut out, requested);
                out.append(" is ahead of the current revision ");
                push_decimal(&mut out, current);
                out
            },
            Kind::Corrupt => {
                let mut out = "corrupt store state".to_string();
                match &self.detail {
                    Some(d) => {
                        out.append(": ");
                        out.append(d.as_str());
                    },
                    None => {},
                }
                out
            },
            Kind::Storage => {
                "storage backend failure".to_string()
            },
        }
    }

    /// The backend failure this error reports, if it reports one.
    pub fn source(&self) -> (s: Option<&StorageError>)
        ensures
            match s {
                Some(e) => self.source_of() == Some(*e),
                None => self.source_of() is None,
            },
    {
        match &self.source {
            Some(e) => Some(e),
            None => None,
        }
    }
}

} // verus!
