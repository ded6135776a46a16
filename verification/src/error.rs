//! Errors of the Vulkan planning code.

use vstd::prelude::*;

verus! {

/// Errors from planning GPU work.
#[derive(Clone, Copy, Debug, PartialEq, Eq, Structural)]
pub enum Error {
    /// Invalid dimensions or rectangle bounds.
    BadTarget,
    /// Evaluated frame data cannot fit in the Vulkan upload path.
    FrameTooLarge,
}

} // verus!
