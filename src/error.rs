//! The ways an operation on the object store can fail.
use vstd::prelude::*;

verus! {

#[derive(PartialEq, Eq, Structural, Clone, Copy, Debug)]
pub enum ObjectError {
    /// A digest that is not 40 lowercase hex characters.
    InvalidDigest,
    /// No object is stored under the digest.
    NotFound,
    /// Stored bytes that do not decompress, or do not hold a well-formed object.
    Format,
    /// A file-system failure unrelated to the object format.
    Io,
}

} // verus!
