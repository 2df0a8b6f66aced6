//! The failures that the mail store reports.

use vstd::prelude::*;

verus! {

/// Which step failed.
#[derive(Debug, Clone, Copy, PartialEq, Eq, Structural)]
pub enum MailErrorKind {
    FileOpen,
    FileRead,
    FileWrite,
    FileExists,
    FileMetadata,
    SerdeWrite,
    SerdeRead,
    DirRead,
    DirCreate,
}

/// A failure of the mail store, with the path at which it arose.
#[derive(Debug, Clone)]
pub struct MailError {
    pub kind: MailErrorKind,
    pub path: String,
}

/// The name under which a kind of failure is reported.
pub open spec fn kind_name(kind: MailErrorKind) -> Seq<char> {
    match kind {
        MailErrorKind::FileOpen => "FileOpen"@,
        MailErrorKind::FileRead => "FileRead"@,
        MailErrorKind::FileWrite => "FileWrite"@,
        MailErrorKind::FileExists => "FileExists"@,
        MailErrorKind::FileMetadata => "FileMetadata"@,
        MailErrorKind::SerdeWrite => "SerdeWrite"@,
        MailErrorKind::SerdeRead => "SerdeRead"@,
        MailErrorKind::DirRead => "DirRead"@,
        MailErrorKind::DirCreate => "DirCreate"@,
    }
}

/// Whether a kind of failure comes from the file system rather than from
/// the encoding of a metadata record.
pub open spec fn is_io(kind: MailErrorKind) -> bool {
    kind != MailErrorKind::SerdeRead && kind != MailErrorKind::SerdeWrite
}

impl MailError {
    /// The failure of `kind` at `path`.
    pub fn new(kind: MailErrorKind, path: String) -> (r: MailError)
        ensures
            r.kind == kind,
            r.path@ == path@,
    {
        MailError { kind, path }
    }

    /// The kind of the failure if the file system caused it, nothing for a
    /// failure of the record encoding.
    pub fn io_error(self) -> (r: Option<MailErrorKind>)
        ensures
            r == if is_io(self.kind) {
                Some(self.kind)
            } else {
                None
            },
    {
        match self.kind {
            MailErrorKind::SerdeRead | MailErrorKind::SerdeWrite => None,
            k => Some(k),
        }
    }

    /// The failure in words: the kind's name, then the path in square brackets.
    pub fn message(&self) -> (r: String)
        ensures
            r@ == kind_name(self.kind) + "["@ + self.path@ + "]"@,
    {
        let name = match self.kind {
            MailErrorKind::FileOpen => "FileOpen",
            MailErrorKind::FileRead => "FileRead",
            MailErrorKind::FileWrite => "FileWrite",
            MailErrorKind::FileExists => "FileExists",
            MailErrorKind::FileMetadata => "FileMetadata",
            MailErrorKind::SerdeWrite => "SerdeWrite",
            MailErrorKind::SerdeRead => "SerdeRead",
            MailErrorKind::DirRead => "DirRead",
            MailErrorKind::DirCreate => "DirCreate",
        };
        let mut s = String::from_str(name);
        s.append("[");
        s.append(self.path.as_str());
        s.append("]");
        s
    }
}

} // verus!
