pub mod assign_bend_points;
pub mod crossing_minimization;
pub mod edge;
pub mod eliminate_back_edges;
pub mod graph;
pub mod node;
pub mod node_positioning;
pub mod solve_layer_assignment;

use vstd::prelude::*;
use vstd::string::*;

verus! {

/// A layout stage that cannot complete reports which lane, node or edge
/// failed and why; success is always distinguishable from failure.
#[derive(Debug)]
pub enum LayoutError {
    /// The per-lane integer program has no solution (almost certainly an
    /// upstream cycle); carries the lane's name.
    InfeasibleLane(String),
    /// An edge references a node id absent from the graph: a
    /// data-integrity error from the parser boundary.
    MissingNode(usize),
    /// An edge endpoint exists but never received coordinates, so routing
    /// cannot place it.
    UnplacedNode(usize),
    /// The solver gave up on a lane's layer program without proving it
    /// infeasible (a numerical or internal failure); carries the lane's
    /// name.
    SolverFailed(String),
}

impl LayoutError {
    /// A short description of the failure.
    pub fn message(&self) -> (msg: String)
        ensures
            match self {
                LayoutError::InfeasibleLane(lane) => msg@ =~= "layer assignment infeasible in lane "@ + lane@,
                LayoutError::MissingNode(_) => msg@ =~= "edge references a node id absent from the graph"@,
                LayoutError::UnplacedNode(_) => msg@ =~= "edge endpoint has no coordinates"@,
                LayoutError::SolverFailed(lane) => msg@ =~= "layer solver failed in lane "@ + lane@,
            },
    {
        match self {
            LayoutError::InfeasibleLane(lane) => {
                let mut msg = String::from_str("layer assignment infeasible in lane ");
                msg.append(lane.as_str());
                msg
            },
            LayoutError::MissingNode(_) => String::from_str(
                "edge references a node id absent from the graph",
            ),
            LayoutError::UnplacedNode(_) => String::from_str("edge endpoint has no coordinates"),
            LayoutError::SolverFailed(lane) => {
                let mut msg = String::from_str("layer solver failed in lane ");
                msg.append(lane.as_str());
                msg
            },
        }
    }
}

} // verus!
