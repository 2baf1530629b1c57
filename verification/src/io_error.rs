//! `std::io::Error`, carried through the library's errors as it came, and
//! the one thing the library asks of it: whether it means "not found".

use vstd::prelude::*;

verus! {

#[verifier::external_type_specification]
#[verifier::external_body]
pub struct ExIoError(std::io::Error);

/// Whether the error `e` says that what it concerns does not exist: its
/// kind is `NotFound`.
pub uninterp spec fn io_not_found(e: std::io::Error) -> bool;

/// Tells whether an I/O error is of kind `NotFound`: `std::io::Error::kind`
/// compared with `std::io::ErrorKind::NotFound`.
///
/// Claims only that the answer is the one [`io_not_found`] names for the
/// error: it depends on the error alone.
#[verifier::external_body]
pub(crate) fn is_not_found(e: &std::io::Error) -> (res: bool)
    ensures
        res == io_not_found(*e),
{
    e.kind() == std::io::ErrorKind::NotFound
}

} // verus!
