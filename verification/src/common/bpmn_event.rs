use vstd::prelude::*;

verus! {

/// The kind of BPMN element a node renders as. The kind determines the
/// rendered width and height of the node through a fixed lookup table.
#[derive(Debug, Clone, PartialEq, Eq)]
pub enum BpmnEvent {
    /// Start event with label
    Start(String),
    /// Middle event with label
    Middle(String),
    /// End event with label
    End(String),
    /// Exclusive gateway event
    GatewayExclusive,
    /// Inclusive gateway event
    GatewayInclusive,
    /// Parallel gateway event
    GatewayParallel,
    /// Event-based gateway event
    GatewayEvent,
    /// Join gateway event with label
    GatewayJoin(String),
    /// Task with label
    ActivityTask(String),
    /// Subprocess with label
    ActivitySubprocess(String),
    /// Call Activity with label
    ActivityCallActivity(String),
    /// Event Subprocess with label
    ActivityEventSubprocess(String),
    /// Transaction with label
    ActivityTransaction(String),
    /// Timer start event with label
    StartTimerEvent(String),
    /// Signal start event with label
    StartSignalEvent(String),
    /// Message start event with label
    StartMessageEvent(String),
    /// Conditional start event with label
    StartConditionalEvent(String),
    /// Error end event with label
    EndErrorEvent(String),
    /// Cancel end event with label
    EndCancelEvent(String),
    /// Signal end event with label
    EndSignalEvent(String),
    /// Message end event with label
    EndMessageEvent(String),
    /// Terminate end event with label
    EndTerminateEvent(String),
    /// Escalation end event with label
    EndEscalationEvent(String),
    /// Compensation end event with label
    EndCompensationEvent(String),
    /// Boundary event with label, attached to node ID, cancel activity flag
    BoundaryEvent(String, usize, bool),
    /// Error boundary event
    BoundaryErrorEvent(String, usize, bool),
    /// Timer boundary event
    BoundaryTimerEvent(String, usize, bool),
    /// Cancel boundary event
    BoundaryCancelEvent(String, usize, bool),
    /// Signal boundary event
    BoundarySignalEvent(String, usize, bool),
    /// Message boundary event
    BoundaryMessageEvent(String, usize, bool),
    /// Escalation boundary event
    BoundaryEscalationEvent(String, usize, bool),
    /// Conditional boundary event
    BoundaryConditionalEvent(String, usize, bool),
    /// Compensation boundary event (always non-interrupting)
    BoundaryCompensationEvent(String, usize),
    /// Data store reference with label
    DataStoreReference(String),
    /// Data object reference with label
    DataObjectReference(String),
    /// User task with label
    TaskUser(String),
    /// Service task with label
    TaskService(String),
    /// Business rule task with label
    TaskBusinessRule(String),
    /// Script task with label
    TaskScript(String),
}

/// The rendered (width, height) of each element kind: circular events are
/// 36x36, gateways 50x50, tasks 100x80, expanded subprocesses 350x200,
/// data objects 36x50 or 50x50.
pub open spec fn spec_node_size(event: &BpmnEvent) -> (usize, usize) {
    match event {
        BpmnEvent::Start(_)
        | BpmnEvent::StartTimerEvent(_)
        | BpmnEvent::StartSignalEvent(_)
        | BpmnEvent::StartMessageEvent(_)
        | BpmnEvent::StartConditionalEvent(_) => (36, 36),
        BpmnEvent::End(_)
        | BpmnEvent::EndErrorEvent(_)
        | BpmnEvent::EndCancelEvent(_)
        | BpmnEvent::EndSignalEvent(_)
        | BpmnEvent::EndMessageEvent(_)
        | BpmnEvent::EndTerminateEvent(_)
        | BpmnEvent::EndEscalationEvent(_)
        | BpmnEvent::EndCompensationEvent(_) => (36, 36),
        BpmnEvent::GatewayExclusive
        | BpmnEvent::GatewayInclusive
        | BpmnEvent::GatewayParallel
        | BpmnEvent::GatewayEvent
        | BpmnEvent::GatewayJoin(_) => (50, 50),
        BpmnEvent::ActivityTask(_)
        | BpmnEvent::ActivityCallActivity(_)
        | BpmnEvent::TaskUser(_)
        | BpmnEvent::TaskService(_)
        | BpmnEvent::TaskBusinessRule(_)
        | BpmnEvent::TaskScript(_) => (100, 80),
        BpmnEvent::ActivitySubprocess(_)
        | BpmnEvent::ActivityEventSubprocess(_)
        | BpmnEvent::ActivityTransaction(_) => (350, 200),
        BpmnEvent::BoundaryEvent(_, _, _)
        | BpmnEvent::BoundaryErrorEvent(_, _, _)
        | BpmnEvent::BoundaryTimerEvent(_, _, _)
        | BpmnEvent::BoundaryCancelEvent(_, _, _)
        | BpmnEvent::BoundarySignalEvent(_, _, _)
        | BpmnEvent::BoundaryMessageEvent(_, _, _)
        | BpmnEvent::BoundaryEscalationEvent(_, _, _)
        | BpmnEvent::BoundaryConditionalEvent(_, _, _)
        | BpmnEvent::BoundaryCompensationEvent(_, _) => (36, 36),
        BpmnEvent::DataStoreReference(_) => (50, 50),
        BpmnEvent::DataObjectReference(_) => (36, 50),
        _ => (100, 80),
    }
}

/// Every rendered size is positive and no larger than 350x200.
pub proof fn lemma_node_size_bounds(event: &BpmnEvent)
    ensures
        0 < spec_node_size(event).0 <= 350,
        0 < spec_node_size(event).1 <= 200,
{
}

/// Looks up the rendered (width, height) of an element kind.
pub fn get_node_size(event: &BpmnEvent) -> (size: (usize, usize))
    ensures
        size == spec_node_size(event),
{
    match event {
        BpmnEvent::Start(_)
        | BpmnEvent::StartTimerEvent(_)
        | BpmnEvent::StartSignalEvent(_)
        | BpmnEvent::StartMessageEvent(_)
        | BpmnEvent::StartConditionalEvent(_) => (36, 36),
        BpmnEvent::End(_)
        | BpmnEvent::EndErrorEvent(_)
        | BpmnEvent::EndCancelEvent(_)
        | BpmnEvent::EndSignalEvent(_)
        | BpmnEvent::EndMessageEvent(_)
        | BpmnEvent::EndTerminateEvent(_)
        | BpmnEvent::EndEscalationEvent(_)
        | BpmnEvent::EndCompensationEvent(_) => (36, 36),
        BpmnEvent::GatewayExclusive
        | BpmnEvent::GatewayInclusive
        | BpmnEvent::GatewayParallel
        | BpmnEvent::GatewayEvent
        | BpmnEvent::GatewayJoin(_) => (50, 50),
        BpmnEvent::ActivityTask(_)
        | BpmnEvent::ActivityCallActivity(_)
        | BpmnEvent::TaskUser(_)
        | BpmnEvent::TaskService(_)
        | BpmnEvent::TaskBusinessRule(_)
        | BpmnEvent::TaskScript(_) => (100, 80),
        BpmnEvent::ActivitySubprocess(_)
        | BpmnEvent::ActivityEventSubprocess(_)
        | BpmnEvent::ActivityTransaction(_) => (350, 200),
        BpmnEvent::BoundaryEvent(_, _, _)
        | BpmnEvent::BoundaryErrorEvent(_, _, _)
        | BpmnEvent::BoundaryTimerEvent(_, _, _)
        | BpmnEvent::BoundaryCancelEvent(_, _, _)
        | BpmnEvent::BoundarySignalEvent(_, _, _)
        | BpmnEvent::BoundaryMessageEvent(_, _, _)
        | BpmnEvent::BoundaryEscalationEvent(_, _, _)
        | BpmnEvent::BoundaryConditionalEvent(_, _, _)
        | BpmnEvent::BoundaryCompensationEvent(_, _) => (36, 36),
        BpmnEvent::DataStoreReference(_) => (50, 50),
        BpmnEvent::DataObjectReference(_) => (36, 50),
        _ => (100, 80),
    }
}


/// Two element kinds carrying the same variant and the same content.
pub open spec fn spec_event_like(a: BpmnEvent, b: BpmnEvent) -> bool {
    match (a, b) {
        (BpmnEvent::Start(s1), BpmnEvent::Start(s2)) => s1@ == s2@,
        (BpmnEvent::Middle(s1), BpmnEvent::Middle(s2)) => s1@ == s2@,
        (BpmnEvent::End(s1), BpmnEvent::End(s2)) => s1@ == s2@,
        (BpmnEvent::GatewayExclusive, BpmnEvent::GatewayExclusive) => true,
        (BpmnEvent::GatewayInclusive, BpmnEvent::GatewayInclusive) => true,
        (BpmnEvent::GatewayParallel, BpmnEvent::GatewayParallel) => true,
        (BpmnEvent::GatewayEvent, BpmnEvent::GatewayEvent) => true,
        (BpmnEvent::GatewayJoin(s1), BpmnEvent::GatewayJoin(s2)) => s1@ == s2@,
        (BpmnEvent::ActivityTask(s1), BpmnEvent::ActivityTask(s2)) => s1@ == s2@,
        (BpmnEvent::ActivitySubprocess(s1), BpmnEvent::ActivitySubprocess(s2)) => s1@ == s2@,
        (BpmnEvent::ActivityCallActivity(s1), BpmnEvent::ActivityCallActivity(s2)) => s1@ == s2@,
        (BpmnEvent::ActivityEventSubprocess(s1), BpmnEvent::ActivityEventSubprocess(s2)) => s1@ == s2@,
        (BpmnEvent::ActivityTransaction(s1), BpmnEvent::ActivityTransaction(s2)) => s1@ == s2@,
        (BpmnEvent::StartTimerEvent(s1), BpmnEvent::StartTimerEvent(s2)) => s1@ == s2@,
        (BpmnEvent::StartSignalEvent(s1), BpmnEvent::StartSignalEvent(s2)) => s1@ == s2@,
        (BpmnEvent::StartMessageEvent(s1), BpmnEvent::StartMessageEvent(s2)) => s1@ == s2@,
        (BpmnEvent::StartConditionalEvent(s1), BpmnEvent::StartConditionalEvent(s2)) => s1@ == s2@,
        (BpmnEvent::EndErrorEvent(s1), BpmnEvent::EndErrorEvent(s2)) => s1@ == s2@,
        (BpmnEvent::EndCancelEvent(s1), BpmnEvent::EndCancelEvent(s2)) => s1@ == s2@,
        (BpmnEvent::EndSignalEvent(s1), BpmnEvent::EndSignalEvent(s2)) => s1@ == s2@,
        (BpmnEvent::EndMessageEvent(s1), BpmnEvent::EndMessageEvent(s2)) => s1@ == s2@,
        (BpmnEvent::EndTerminateEvent(s1), BpmnEvent::EndTerminateEvent(s2)) => s1@ == s2@,
        (BpmnEvent::EndEscalationEvent(s1), BpmnEvent::EndEscalationEvent(s2)) => s1@ == s2@,
        (BpmnEvent::EndCompensationEvent(s1), BpmnEvent::EndCompensationEvent(s2)) => s1@ == s2@,
        (BpmnEvent::BoundaryEvent(s1, u1, b1), BpmnEvent::BoundaryEvent(s2, u2, b2)) => s1@ == s2@ && u1 == u2 && b1 == b2,
        (BpmnEvent::BoundaryErrorEvent(s1, u1, b1), BpmnEvent::BoundaryErrorEvent(s2, u2, b2)) => s1@ == s2@ && u1 == u2 && b1 == b2,
        (BpmnEvent::BoundaryTimerEvent(s1, u1, b1), BpmnEvent::BoundaryTimerEvent(s2, u2, b2)) => s1@ == s2@ && u1 == u2 && b1 == b2,
        (BpmnEvent::BoundaryCancelEvent(s1, u1, b1), BpmnEvent::BoundaryCancelEvent(s2, u2, b2)) => s1@ == s2@ && u1 == u2 && b1 == b2,
        (BpmnEvent::BoundarySignalEvent(s1, u1, b1), BpmnEvent::BoundarySignalEvent(s2, u2, b2)) => s1@ == s2@ && u1 == u2 && b1 == b2,
        (BpmnEvent::BoundaryMessageEvent(s1, u1, b1), BpmnEvent::BoundaryMessageEvent(s2, u2, b2)) => s1@ == s2@ && u1 == u2 && b1 == b2,
        (BpmnEvent::BoundaryEscalationEvent(s1, u1, b1), BpmnEvent::BoundaryEscalationEvent(s2, u2, b2)) => s1@ == s2@ && u1 == u2 && b1 == b2,
        (BpmnEvent::BoundaryConditionalEvent(s1, u1, b1), BpmnEvent::BoundaryConditionalEvent(s2, u2, b2)) => s1@ == s2@ && u1 == u2 && b1 == b2,
        (BpmnEvent::BoundaryCompensationEvent(s1, u1), BpmnEvent::BoundaryCompensationEvent(s2, u2)) => s1@ == s2@ && u1 == u2,
        (BpmnEvent::DataStoreReference(s1), BpmnEvent::DataStoreReference(s2)) => s1@ == s2@,
        (BpmnEvent::DataObjectReference(s1), BpmnEvent::DataObjectReference(s2)) => s1@ == s2@,
        (BpmnEvent::TaskUser(s1), BpmnEvent::TaskUser(s2)) => s1@ == s2@,
        (BpmnEvent::TaskService(s1), BpmnEvent::TaskService(s2)) => s1@ == s2@,
        (BpmnEvent::TaskBusinessRule(s1), BpmnEvent::TaskBusinessRule(s2)) => s1@ == s2@,
        (BpmnEvent::TaskScript(s1), BpmnEvent::TaskScript(s2)) => s1@ == s2@,
        _ => false,
    }
}

/// Copies an element kind field by field.
pub fn clone_event(event: &BpmnEvent) -> (copy: BpmnEvent)
    ensures
        spec_event_like(*event, copy),
{
    match event {
        BpmnEvent::Start(s) => BpmnEvent::Start(s.clone()),
        BpmnEvent::Middle(s) => BpmnEvent::Middle(s.clone()),
        BpmnEvent::End(s) => BpmnEvent::End(s.clone()),
        BpmnEvent::GatewayExclusive => BpmnEvent::GatewayExclusive,
        BpmnEvent::GatewayInclusive => BpmnEvent::GatewayInclusive,
        BpmnEvent::GatewayParallel => BpmnEvent::GatewayParallel,
        BpmnEvent::GatewayEvent => BpmnEvent::GatewayEvent,
        BpmnEvent::GatewayJoin(s) => BpmnEvent::GatewayJoin(s.clone()),
        BpmnEvent::ActivityTask(s) => BpmnEvent::ActivityTask(s.clone()),
        BpmnEvent::ActivitySubprocess(s) => BpmnEvent::ActivitySubprocess(s.clone()),
        BpmnEvent::ActivityCallActivity(s) => BpmnEvent::ActivityCallActivity(s.clone()),
        BpmnEvent::ActivityEventSubprocess(s) => BpmnEvent::ActivityEventSubprocess(s.clone()),
        BpmnEvent::ActivityTransaction(s) => BpmnEvent::ActivityTransaction(s.clone()),
        BpmnEvent::StartTimerEvent(s) => BpmnEvent::StartTimerEvent(s.clone()),
        BpmnEvent::StartSignalEvent(s) => BpmnEvent::StartSignalEvent(s.clone()),
        BpmnEvent::StartMessageEvent(s) => BpmnEvent::StartMessageEvent(s.clone()),
        BpmnEvent::StartConditionalEvent(s) => BpmnEvent::StartConditionalEvent(s.clone()),
        BpmnEvent::EndErrorEvent(s) => BpmnEvent::EndErrorEvent(s.clone()),
        BpmnEvent::EndCancelEvent(s) => BpmnEvent::EndCancelEvent(s.clone()),
        BpmnEvent::EndSignalEvent(s) => BpmnEvent::EndSignalEvent(s.clone()),
        BpmnEvent::EndMessageEvent(s) => BpmnEvent::EndMessageEvent(s.clone()),
        BpmnEvent::EndTerminateEvent(s) => BpmnEvent::EndTerminateEvent(s.clone()),
        BpmnEvent::EndEscalationEvent(s) => BpmnEvent::EndEscalationEvent(s.clone()),
        BpmnEvent::EndCompensationEvent(s) => BpmnEvent::EndCompensationEvent(s.clone()),
        BpmnEvent::BoundaryEvent(s, u, b) => BpmnEvent::BoundaryEvent(s.clone(), *u, *b),
        BpmnEvent::BoundaryErrorEvent(s, u, b) => BpmnEvent::BoundaryErrorEvent(s.clone(), *u, *b),
        BpmnEvent::BoundaryTimerEvent(s, u, b) => BpmnEvent::BoundaryTimerEvent(s.clone(), *u, *b),
        BpmnEvent::BoundaryCancelEvent(s, u, b) => BpmnEvent::BoundaryCancelEvent(s.clone(), *u, *b),
        BpmnEvent::BoundarySignalEvent(s, u, b) => BpmnEvent::BoundarySignalEvent(s.clone(), *u, *b),
        BpmnEvent::BoundaryMessageEvent(s, u, b) => BpmnEvent::BoundaryMessageEvent(s.clone(), *u, *b),
        BpmnEvent::BoundaryEscalationEvent(s, u, b) => BpmnEvent::BoundaryEscalationEvent(s.clone(), *u, *b),
        BpmnEvent::BoundaryConditionalEvent(s, u, b) => BpmnEvent::BoundaryConditionalEvent(s.clone(), *u, *b),
        BpmnEvent::BoundaryCompensationEvent(s, u) => BpmnEvent::BoundaryCompensationEvent(s.clone(), *u),
        BpmnEvent::DataStoreReference(s) => BpmnEvent::DataStoreReference(s.clone()),
        BpmnEvent::DataObjectReference(s) => BpmnEvent::DataObjectReference(s.clone()),
        BpmnEvent::TaskUser(s) => BpmnEvent::TaskUser(s.clone()),
        BpmnEvent::TaskService(s) => BpmnEvent::TaskService(s.clone()),
        BpmnEvent::TaskBusinessRule(s) => BpmnEvent::TaskBusinessRule(s.clone()),
        BpmnEvent::TaskScript(s) => BpmnEvent::TaskScript(s.clone()),
    }
}

} // verus!
