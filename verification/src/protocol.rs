//! The messages a parent and its children exchange.
use vstd::prelude::*;

use crate::control::ControlAction;
use crate::heartbeat::HeartbeatConfig;
use crate::observability::{Event, EventModel};
use crate::text::texts;

verus! {

/// The protocol version both ends must speak.
pub const PROTOCOL_VERSION: u32 = 11;

/// Identifies one task of a run: its position among the inputs.
pub type TaskId = u64;

/// How a relay describes one child it has built to its parent.
#[derive(Debug, Clone, PartialEq, Eq)]
pub struct ChildAd {
    label: String,
    id: String,
    slots: usize,
    latency_us: u64,
}

/// A [`ChildAd`] as a mathematical value.
pub struct AdModel {
    pub label: Seq<char>,
    pub id: Seq<char>,
    pub slots: usize,
    pub latency_us: u64,
}

impl View for ChildAd {
    type V = AdModel;

    closed spec fn view(&self) -> AdModel {
        AdModel {
            label: self.label@,
            id: self.id@,
            slots: self.slots,
            latency_us: self.latency_us,
        }
    }
}

/// Each description in turn as a mathematical value.
pub open spec fn ads(v: Seq<ChildAd>) -> Seq<AdModel> {
    Seq::new(v.len(), |i: int| v[i]@)
}

impl ChildAd {
    /// Describe a child.
    pub fn new(label: String, id: String, slots: usize, latency_us: u64) -> (r: ChildAd)
        ensures
            r@ == (AdModel { label: label@, id: id@, slots, latency_us }),
    {
        ChildAd { label, id, slots, latency_us }
    }

    /// The label the relay addresses the child by.
    pub fn label(&self) -> (r: &str)
        ensures
            r@ == self@.label,
    {
        self.label.as_str()
    }

    /// The stable id of the machine behind the child.
    pub fn id(&self) -> (r: &str)
        ensures
            r@ == self@.id,
    {
        self.id.as_str()
    }

    /// How many tasks the child can hold at once.
    pub fn slots(&self) -> (r: usize)
        ensures
            r == self@.slots,
    {
        self.slots
    }

    /// The measured latency from the relay to the child, in microseconds.
    pub fn latency_us(&self) -> (r: u64)
        ensures
            r == self@.latency_us,
    {
        self.latency_us
    }

    /// An equal description.
    pub fn copy(&self) -> (r: ChildAd)
        ensures
            r == *self,
    {
        ChildAd {
            label: self.label.clone(),
            id: self.id.clone(),
            slots: self.slots,
            latency_us: self.latency_us,
        }
    }
}

/// A message from a parent down to an agent.
#[derive(Debug, Clone, PartialEq, Eq)]
pub enum ToAgent {
    /// Open the conversation.
    Hello {
        /// The parent's protocol version.
        protocol_version: u32,
        /// The key of the function the run maps.
        fn_key: String,
        /// The parent's liveness settings.
        heartbeat: HeartbeatConfig,
    },
    /// Run one task.
    Assign {
        /// The task.
        task_id: TaskId,
        /// Its serialized input.
        payload: Vec<u8>,
    },
    /// Tell a relay which of its children to run tasks on.
    Activate {
        /// Labels of the children to activate.
        active: Vec<String>,
    },
    /// Tell a relay to start using a child it held back.
    Promote {
        /// The child's label.
        child: String,
    },
    /// Steer a node below.
    Control {
        /// The node's path from this agent down.
        target: String,
        /// What is asked of it.
        action: ControlAction,
    },
    /// A liveness probe, answered by `Pong`.
    Ping,
    /// End the conversation.
    Shutdown,
}

/// A message from an agent up to its parent.
#[derive(Debug, Clone, PartialEq, Eq)]
pub enum FromAgent {
    /// The agent can take tasks.
    Ready {
        /// How many tasks it can hold at once.
        slots: usize,
    },
    /// A task began running.
    Started {
        /// The task.
        task_id: TaskId,
    },
    /// A task finished with an output.
    Completed {
        /// The task.
        task_id: TaskId,
        /// Its serialized output.
        output: Vec<u8>,
        /// The path below the sender of the leaf that ran it.
        via: String,
    },
    /// A task finished with an error.
    Failed {
        /// The task.
        task_id: TaskId,
        /// What went wrong.
        error: String,
        /// The path below the sender of the leaf that ran it.
        via: String,
    },
    /// A relay describes the children it has built.
    Discovered {
        /// The children.
        children: Vec<ChildAd>,
    },
    /// The number of tasks the agent can hold at once changed.
    Capacity {
        /// The new number.
        slots: usize,
    },
    /// An observability event from the agent's subtree.
    Observe(Event),
    /// The answer to a `Ping`.
    Pong,
}

/// A [`ToAgent`] as a mathematical value.
pub enum ToAgentModel {
    Hello { protocol_version: u32, fn_key: Seq<char>, heartbeat: HeartbeatConfig },
    Assign { task_id: TaskId, payload: Seq<u8> },
    Activate { active: Seq<Seq<char>> },
    Promote { child: Seq<char> },
    Control { target: Seq<char>, action: ControlAction },
    Ping,
    Shutdown,
}

/// A [`FromAgent`] as a mathematical value.
pub enum FromAgentModel {
    Ready { slots: usize },
    Started { task_id: TaskId },
    Completed { task_id: TaskId, output: Seq<u8>, via: Seq<char> },
    Failed { task_id: TaskId, error: Seq<char>, via: Seq<char> },
    Discovered { children: Seq<AdModel> },
    Capacity { slots: usize },
    Observe { event: EventModel },
    Pong,
}

impl View for ToAgent {
    type V = ToAgentModel;

    open spec fn view(&self) -> ToAgentModel {
        match *self {
            ToAgent::Hello { protocol_version, fn_key, heartbeat } => ToAgentModel::Hello {
                protocol_version,
                fn_key: fn_key@,
                heartbeat,
            },
            ToAgent::Assign { task_id, payload } => ToAgentModel::Assign {
                task_id,
                payload: payload@,
            },
            ToAgent::Activate { active } => ToAgentModel::Activate { active: texts(active@) },
            ToAgent::Promote { child } => ToAgentModel::Promote { child: child@ },
            ToAgent::Control { target, action } => ToAgentModel::Control {
                target: target@,
                action,
            },
            ToAgent::Ping => ToAgentModel::Ping,
            ToAgent::Shutdown => ToAgentModel::Shutdown,
        }
    }
}

impl View for FromAgent {
    type V = FromAgentModel;

    open spec fn view(&self) -> FromAgentModel {
        match *self {
            FromAgent::Ready { slots } => FromAgentModel::Ready { slots },
            FromAgent::Started { task_id } => FromAgentModel::Started { task_id },
            FromAgent::Completed { task_id, output, via } => FromAgentModel::Completed {
                task_id,
                output: output@,
                via: via@,
            },
            FromAgent::Failed { task_id, error, via } => FromAgentModel::Failed {
                task_id,
                error: error@,
                via: via@,
            },
            FromAgent::Discovered { children } => FromAgentModel::Discovered {
                children: ads(children@),
            },
            FromAgent::Capacity { slots } => FromAgentModel::Capacity { slots },
            FromAgent::Observe(event) => FromAgentModel::Observe { event: event@ },
            FromAgent::Pong => FromAgentModel::Pong,
        }
    }
}

/// What a message to an agent stands for holds all that it says, and nothing else.
pub proof fn law_messages_down_keep_their_contents(
    protocol_version: u32,
    fn_key: String,
    heartbeat: HeartbeatConfig,
    task_id: TaskId,
    payload: Vec<u8>,
    active: Vec<String>,
    child: String,
    target: String,
    action: ControlAction,
)
    ensures
        (ToAgent::Hello { protocol_version, fn_key, heartbeat })@ == (ToAgentModel::Hello {
            protocol_version,
            fn_key: fn_key@,
            heartbeat,
        }),
        (ToAgent::Assign { task_id, payload })@ == (ToAgentModel::Assign {
            task_id,
            payload: payload@,
        }),
        (ToAgent::Activate { active })@ matches ToAgentModel::Activate { active: labels }
            && labels.len() == active@.len() && forall|i: int|
            0 <= i < active@.len() ==> (#[trigger] labels[i]) == active@[i]@,
        (ToAgent::Promote { child })@ == (ToAgentModel::Promote { child: child@ }),
        (ToAgent::Control { target, action })@ == (ToAgentModel::Control {
            target: target@,
            action,
        }),
        ToAgent::Ping@ == ToAgentModel::Ping,
        ToAgent::Shutdown@ == ToAgentModel::Shutdown,
{
}

/// What a message from an agent stands for holds all that it says, and nothing else.
pub proof fn law_messages_up_keep_their_contents(
    slots: usize,
    task_id: TaskId,
    output: Vec<u8>,
    error: String,
    via: String,
    children: Vec<ChildAd>,
    event: Event,
)
    ensures
        (FromAgent::Ready { slots })@ == (FromAgentModel::Ready { slots }),
        (FromAgent::Started { task_id })@ == (FromAgentModel::Started { task_id }),
        (FromAgent::Completed { task_id, output, via })@ == (FromAgentModel::Completed {
            task_id,
            output: output@,
            via: via@,
        }),
        (FromAgent::Failed { task_id, error, via })@ == (FromAgentModel::Failed {
            task_id,
            error: error@,
            via: via@,
        }),
        (FromAgent::Discovered { children })@ matches FromAgentModel::Discovered { children: all }
            && all.len() == children@.len() && forall|i: int|
            0 <= i < children@.len() ==> (#[trigger] all[i]) == children@[i]@,
        (FromAgent::Capacity { slots })@ == (FromAgentModel::Capacity { slots }),
        FromAgent::Observe(event)@ == (FromAgentModel::Observe { event: event@ }),
        FromAgent::Pong@ == FromAgentModel::Pong,
{
}

} // verus!
