use vstd::prelude::*;

verus! {

/// The failure kinds of the archive subsystem: an operation named an identity
/// that no session matches, the archive could not be parsed, the working
/// directory could not be read or written, or a search pattern was malformed.
#[derive(Clone, Copy, Debug, PartialEq, Eq, Structural)]
pub enum EpubError {
    NotLoaded,
    ArchiveFormat,
    Filesystem,
    Pattern,
}

impl EpubError {
    /// A short description of the failure, for display by the caller.
    pub fn message(&self) -> (r: &'static str)
        ensures
            r@ == self.message_spec(),
    {
        match self {
            EpubError::NotLoaded => "archive not loaded",
            EpubError::ArchiveFormat => "not a valid archive",
            EpubError::Filesystem => "filesystem operation failed",
            EpubError::Pattern => "invalid pattern",
        }
    }

    pub open spec fn message_spec(self) -> Seq<char> {
        match self {
            EpubError::NotLoaded => "archive not loaded"@,
            EpubError::ArchiveFormat => "not a valid archive"@,
            EpubError::Filesystem => "filesystem operation failed"@,
            EpubError::Pattern => "invalid pattern"@,
        }
    }
}

} // verus!
