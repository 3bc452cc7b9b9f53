//! The errors that tree operations report.

use vstd::prelude::*;

verus! {

/// Why a tree operation was rejected.
#[derive(Debug, PartialEq, Eq)]
pub enum Error {
    /// A node without a parent was offered to a tree that already has one.
    RootNodeAlreadyPresent,
    /// The operation is not defined for the node it was asked for.
    InvalidOperation(String),
}

} // verus!
