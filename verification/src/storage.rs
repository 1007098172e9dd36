//! The storage collaborator: record streams come from and go to a backend
//! that the caller supplies.
//!
//! The pipeline itself never touches a file; it consumes and produces
//! plain record vectors. A backend implements [`Storage`] outside the
//! verified core — reading and writing are input and output, of which
//! nothing is proved — and [`CSVFileStorage`] carries the path such a
//! backend works on.
use vstd::prelude::*;

verus! {

/// A source and sink of records: `load` brings the whole stream into
/// memory, `save` writes one out.
pub trait Storage<T> {
    /// The backend's error type.
    type Err;

    /// Loads the whole record stream.
    fn load(&self) -> Result<T, Self::Err>;

    /// Writes the whole record stream.
    fn save(&mut self, data: T) -> Result<(), Self::Err>;
}

/// Declares `std::path::PathBuf` to the verifier, as an opaque type.
/// Relies on the standard library only for the type itself; nothing is
/// assumed of its values.
#[verifier::external_type_specification]
#[verifier::external_body]
pub struct ExPathBuf(std::path::PathBuf);

/// The location of a CSV-backed record stream.
pub struct CSVFileStorage {
    filepath: std::path::PathBuf,
}

impl CSVFileStorage {
    /// The path this storage works on.
    pub closed spec fn path(&self) -> std::path::PathBuf {
        self.filepath
    }

    /// A storage rooted at `filepath`.
    pub fn new(filepath: std::path::PathBuf) -> (r: Self)
        ensures
            r.path() == filepath,
    {
        Self { filepath }
    }

    /// The path this storage was made with.
    pub fn filepath(&self) -> (r: &std::path::PathBuf)
        ensures
            r == self.path(),
    {
        &self.filepath
    }
}

} // verus!
