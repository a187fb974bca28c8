use vstd::prelude::*;

verus! {

/// The ways in which a request to the packer can fail.
#[derive(Clone, Copy, Debug, PartialEq, Eq, Structural)]
pub enum Error {
    ParseError,
    InvalidInput,
    SerializeError,
    PackError,
    AllocError,
    DeallocError,
}

} // verus!
