//! Plain records of the Metal device layer that need no Metal objects.

use vstd::prelude::*;

verus! {

/// A timer query. Metal offers no timer queries, so this carries nothing.
#[derive(Clone, Copy, Debug, PartialEq, Eq, Structural)]
pub struct MetalTimerQuery;

/// Where a uniform is bound: its buffer argument index in the vertex and in
/// the fragment function, where that function uses it.
#[derive(Clone, Copy, Debug, PartialEq, Eq, Structural)]
pub struct MetalUniform {
    pub vertex_index: Option<u64>,
    pub fragment_index: Option<u64>,
}

} // verus!
