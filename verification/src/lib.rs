use vstd::prelude::*;

pub mod ascii;
pub mod file_merkle_tree;
pub mod ipfs;
pub mod hashing;
pub mod record;
pub mod rpc;
pub mod tree;

verus! {

/// Failures of the core operations.
///
/// Out-of-range positions and failed proof checks are expected outcomes and
/// are reported through `Option` / `bool` instead of this type.
#[derive(Clone, Copy, Debug, PartialEq, Eq, Structural)]
pub enum Error {
    /// The input file is empty, or it would need more pieces than the
    /// tree format supports.
    InvalidInput,
    /// A persisted record is malformed: truncated, or its length does not
    /// match what its declared file size requires.
    DecodeError,
}

} // verus!
