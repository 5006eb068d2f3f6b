//! Handles to the elements of the render target.

use vstd::prelude::*;

verus! {

/// Names one element of the render target. The library never looks inside the
/// target: it hands these names to the widgets, which place their output by them.
#[derive(Debug, Clone, Copy, PartialEq, Eq, Structural, Hash)]
pub struct Node(pub u64);

} // verus!
