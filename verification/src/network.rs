//! The nodes of a simulated network.

use vstd::prelude::*;
use crate::nc::{is_unit_vector, NCNodeData, INITIAL_LEARN_RATE_BITS};

verus! {

/// One node of the network: its index in the graph once it has been placed
/// there, its position in the plane (two `f32` bit patterns), and its
/// network coordinates.
#[derive(Clone, Copy, Debug)]
pub struct Node {
    pub node_index: Option<usize>,
    pub position: [u32; 2],
    pub nc: NCNodeData,
}

/// `d` is what `NCNodeData::new` gives.
pub open spec fn is_fresh_coordinates(d: NCNodeData) -> bool {
    &&& is_unit_vector(d.outgoing_vec)
    &&& is_unit_vector(d.incoming_vec)
    &&& d.learn_rate == INITIAL_LEARN_RATE_BITS
}

/// `n` is a node that is not placed in a graph yet, at the origin, with
/// fresh coordinates.
pub open spec fn is_unplaced_origin_node(n: Node) -> bool {
    &&& n.node_index is None
    &&& n.position[0] == 0
    &&& n.position[1] == 0
    &&& is_fresh_coordinates(n.nc)
}

impl Node {
    /// A node at the origin, not placed in a graph yet, with fresh coordinates.
    pub fn at_origin() -> (n: Node)
        ensures
            is_unplaced_origin_node(n),
    {
        Node { node_index: None, position: [0u32; 2], nc: NCNodeData::new() }
    }
}

} // verus!
