use vstd::prelude::*;
use crate::common::bpmn_event::{spec_node_size, BpmnEvent};

verus! {

/// Looks up the rendered (width, height) the serializer draws an element
/// kind with: the same fixed table the layout engine uses — circular
/// events 36x36, gateways 50x50, tasks 100x80, expanded subprocesses
/// 350x200.
pub fn get_node_size(event: &BpmnEvent) -> (size: (usize, usize))
    ensures
        size == spec_node_size(event),
{
    crate::common::bpmn_event::get_node_size(event)
}

} // verus!
