use vstd::prelude::*;

verus! {

/// Structural errors raised when an optimizer is built from inconsistent input.
#[derive(Debug, PartialEq, Eq)]
pub enum OptimizerError {
    /// The hierarchy list does not hold one entry per node layer.
    HierarchyMismatch { hierarchy: usize, layers: usize },
    /// The edge list does not hold one set fewer than there are node layers.
    EdgeLayerMismatch { edges: usize, layers: usize },
    /// Edge `edge_index` of its set names a node that layer `layer_index` does not contain.
    MissingNode { layer_index: usize, edge_index: usize },
    /// A level of a layer's hierarchy does not add up to the layer's node count.
    HierarchySizeMismatch { layer_index: usize, level_index: usize },
    /// A level of a layer's hierarchy does not end its groups on the finer level's boundaries.
    HierarchyMisaligned { layer_index: usize, level_index: usize },
    /// The weights of all edges add up to more than `limit`, beyond which crossing counts
    /// could leave the range of `i64`.
    EdgeWeightLimit { limit: usize },
}

} // verus!
