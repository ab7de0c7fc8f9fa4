pub mod bpmn_event;
pub mod edge;
pub mod graph;
pub mod lane;
pub mod layer;
pub mod node;
pub mod pool;
