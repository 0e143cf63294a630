//! The ways an operation can fail.

use vstd::prelude::*;

verus! {

/// A tag or path lookup missed; a target is not an existing directory; or
/// the backing store could not be created or opened.
#[derive(Debug, Clone, Copy, PartialEq, Eq, Structural)]
pub enum NavError {
    NotFound,
    InvalidTarget,
    StorageUnavailable,
}

} // verus!
