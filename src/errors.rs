use vstd::prelude::*;

verus! {

/// `std::io::Error`, carried through unopened: the error a stream reports when a write,
/// a flush or a read fails.
#[verifier::external_type_specification]
#[verifier::external_body]
pub struct ExIoError(std::io::Error);

/// The errors of the configuration operations.
#[derive(Debug)]
pub enum ODriveError {
    /// The stream to the controller failed.
    Io(std::io::Error),
}

pub type ODriveResult<T> = Result<T, ODriveError>;

} // verus!
