use vstd::prelude::*;

verus! {

/// The one failure a caller of the ordering engine can observe: the attempted
/// edge would close a directed cycle, or an endpoint handle was never issued.
#[derive(Debug, Clone, Copy, PartialEq, Eq, Structural)]
pub enum TopologicalOrderingError {
    /// The attempted edge (including a self-edge) would create a directed cycle.
    CycleDetected,
    /// The handle is not a vertex of this engine's graph store.
    NoSuchItem(usize),
}

} // verus!
