//! Errors surfaced by the store.
use vstd::prelude::*;

verus! {

/// What went wrong while building or reading an artifact.
#[derive(Debug)]
pub enum PakError {
    /// The byte source could not provide the requested range.
    Io,
    /// A byte range was not a valid encoding of the expected record.
    Decode,
    /// A pointer tagged with one type was read as another (found, requested).
    TypeMismatch(String, String),
    /// A query named an index key that the artifact does not hold.
    IndexMissing(String),
    /// A structural invariant of the artifact was violated.
    Corruption,
}

/// The kind of a [`PakError`], without what it carries.
#[derive(Clone, Copy, Debug, PartialEq, Eq, Structural)]
pub enum PakFault {
    Io,
    Decode,
    TypeMismatch,
    IndexMissing,
    Corruption,
}

impl PakError {
    /// The kind of this error.
    pub open spec fn fault(&self) -> PakFault {
        match self {
            PakError::Io => PakFault::Io,
            PakError::Decode => PakFault::Decode,
            PakError::TypeMismatch(_, _) => PakFault::TypeMismatch,
            PakError::IndexMissing(_) => PakFault::IndexMissing,
            PakError::Corruption => PakFault::Corruption,
        }
    }

    /// The error of the given kind. Kinds that carry text get empty text.
    pub fn of(fault: PakFault) -> (r: PakError)
        ensures
            r.fault() == fault,
    {
        match fault {
            PakFault::Io => PakError::Io,
            PakFault::Decode => PakError::Decode,
            PakFault::TypeMismatch => PakError::TypeMismatch(String::new(), String::new()),
            PakFault::IndexMissing => PakError::IndexMissing(String::new()),
            PakFault::Corruption => PakError::Corruption,
        }
    }

    /// The kind of this error.
    pub fn kind(&self) -> (r: PakFault)
        ensures
            r == self.fault(),
    {
        match self {
            PakError::Io => PakFault::Io,
            PakError::Decode => PakFault::Decode,
            PakError::TypeMismatch(_, _) => PakFault::TypeMismatch,
            PakError::IndexMissing(_) => PakFault::IndexMissing,
            PakError::Corruption => PakFault::Corruption,
        }
    }
}

/// What the store gives back: the result, or what went wrong.
pub type PakResult<T> = Result<T, PakError>;

} // verus!
