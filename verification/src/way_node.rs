use vstd::prelude::*;

verus! {

/// One row of the node-reference table: a way and a node that it passes.
#[derive(Debug, Clone, Copy, PartialEq, Eq, Structural)]
pub struct WayNode {
    pub way_id: i64,
    pub ref_id: i64,
}

impl WayNode {
    /// Builds the row for a way and a node that it passes.
    pub fn new(way_id: i64, ref_id: i64) -> (row: Self)
        ensures
            row == (WayNode { way_id, ref_id }),
    {
        WayNode { way_id, ref_id }
    }
}

} // verus!
