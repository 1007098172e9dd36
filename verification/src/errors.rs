//! The error kinds of the feed pipeline.
use vstd::prelude::*;

verus! {

/// Declares `std::io::Error` to the verifier, as an opaque type. Relies on
/// the standard library only for the type itself; nothing is assumed of
/// its values.
#[verifier::external_type_specification]
#[verifier::external_body]
pub struct ExIoError(std::io::Error);

/// What can go wrong around the pipeline: a row that does not parse, or an
/// input or output that cannot be reached. The core computations
/// themselves never fail.
#[derive(Debug)]
pub enum FeedError {
    /// A file was read or written but its content could not be handled.
    FileIOError(String),
    /// The underlying input or output could not be opened, read or
    /// written.
    IOError(std::io::Error),
}

} // verus!
