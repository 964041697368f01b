//! The agent side: what a leaf does with each message of its parent.
//!
//! A task fails only by panicking, and a panic becomes a `Failed` message. Times
//! are nanoseconds on one clock.
use vstd::prelude::*;
use vstd::string::*;

use crate::heartbeat::HeartbeatConfig;
use crate::job::Outcome;
use crate::names::NameMap;
use crate::observability::{Event, EventModel, NodeTelemetry};
use crate::protocol::{FromAgent, FromAgentModel, TaskId, ToAgent, PROTOCOL_VERSION};
use crate::text::{decimal, push_decimal};

verus! {

/// Minimum gap between an agent's self-reported utilisation samples.
pub const TELEMETRY_INTERVAL: u64 = 250_000_000;

/// Whether a sample is due at `now` after one at `last`.
pub open spec fn sample_due(last: u64, now: u64) -> bool {
    now - last >= TELEMETRY_INTERVAL
}

/// Whether a sample is due: at least [`TELEMETRY_INTERVAL`] has passed since
/// `last`, which is then moved to `now`.
pub fn due_sample(last: &mut u64, now: u64) -> (r: bool)
    ensures
        r == sample_due(*old(last), now),
        r == (now - *old(last) >= 250_000_000),
        *final(last) == if r {
            now
        } else {
            *old(last)
        },
{
    if now < *last || now - *last < TELEMETRY_INTERVAL {
        return false;
    }
    *last = now;
    true
}

/// The message of a panic, given its payload as the text or the owned text it may
/// be: a payload that is neither has no message of its own.
pub fn panic_message(text: Option<&str>, owned: Option<&String>) -> (r: String)
    ensures
        r@ == match (text, owned) {
            (Some(s), _) => s@,
            (None, Some(s)) => s@,
            (None, None) => "task panicked"@,
        },
{
    match (text, owned) {
        (Some(s), _) => s.to_owned(),
        (None, Some(s)) => s.clone(),
        (None, None) => "task panicked".to_owned(),
    }
}

/// How running one task ended.
#[derive(Debug)]
pub enum TaskEnd {
    /// Its input could not be decoded, for this reason.
    Undecodable(String),
    /// It panicked with this message.
    Panicked(String),
    /// Its output could not be encoded, for this reason.
    Unencodable(String),
    /// It returned, and this is its encoded output.
    Returned(Vec<u8>),
}

/// The outcome a task's end is reported as.
pub fn outcome_of(end: TaskEnd) -> (r: Outcome)
    ensures
        match end {
            TaskEnd::Undecodable(e) => r matches Err(text) && text@ == "decode input: "@ + e@,
            TaskEnd::Panicked(e) => r == Err::<Vec<u8>, String>(e),
            TaskEnd::Unencodable(e) => r matches Err(text) && text@ == "encode output: "@ + e@,
            TaskEnd::Returned(output) => r == Ok::<Vec<u8>, String>(output),
        },
{
    match end {
        TaskEnd::Undecodable(e) => {
            let mut text = "decode input: ".to_owned();
            text.append(e.as_str());
            Err(text)
        },
        TaskEnd::Panicked(e) => Err(e),
        TaskEnd::Unencodable(e) => {
            let mut text = "encode output: ".to_owned();
            text.append(e.as_str());
            Err(text)
        },
        TaskEnd::Returned(output) => Ok(output),
    }
}

/// Maps function keys to handlers for one agent.
#[derive(Debug)]
pub struct Registry<H> {
    handlers: NameMap<H>,
}

impl<H> View for Registry<H> {
    type V = Map<Seq<char>, H>;

    closed spec fn view(&self) -> Map<Seq<char>, H> {
        self.handlers@
    }
}

impl<H> Registry<H> {
    /// Each key has one handler.
    pub closed spec fn wf(&self) -> bool {
        self.handlers.wf()
    }

    /// An empty registry.
    pub fn new() -> (r: Registry<H>)
        ensures
            r.wf(),
            r@ == Map::<Seq<char>, H>::empty(),
    {
        Registry { handlers: NameMap::new() }
    }

    /// Register `handler` under `key`, replacing what was registered there, and
    /// return the registry for chaining.
    pub fn with(self, key: &str, handler: H) -> (r: Registry<H>)
        requires
            self.wf(),
        ensures
            r.wf(),
            r@ == self@.insert(key@, handler),
    {
        let mut handlers = self.handlers;
        handlers.set(key, handler);
        Registry { handlers }
    }

    /// The handler registered under `key`.
    pub fn get(&self, key: &str) -> (r: Option<&H>)
        requires
            self.wf(),
        ensures
            match r {
                Some(h) => self@.contains_key(key@) && *h == self@[key@],
                None => !self@.contains_key(key@),
            },
    {
        self.handlers.get(key)
    }
}

/// The handler found under a key is the one registered last under it; other keys
/// are not affected.
pub proof fn law_the_last_registration_wins<H>(
    before: Map<Seq<char>, H>,
    key: Seq<char>,
    handler: H,
    other: Seq<char>,
)
    ensures
        before.insert(key, handler)[key] == handler,
        other != key ==> before.insert(key, handler).contains_key(other) == before.contains_key(
            other,
        ),
        other != key && before.contains_key(other) ==> before.insert(key, handler)[other]
            == before[other],
{
}

/// Why an agent ended its conversation with an error.
#[derive(Debug)]
pub enum AgentError {
    /// The parent speaks another protocol version.
    VersionMismatch {
        /// The parent's version.
        peer: u32,
    },
    /// The conversation did not open with `Hello`.
    ExpectedHello(Option<ToAgent>),
    /// No handler is registered under the run's key.
    UnknownKey(String),
    /// A message that makes no sense for a leaf.
    Unexpected(ToAgent),
}

/// The text of an agent's failure; `shown` is the offending message as displayed.
pub open spec fn agent_failure(e: AgentError, shown: Seq<char>) -> Seq<char> {
    match e {
        AgentError::VersionMismatch { peer } => "protocol mismatch: local "@ + decimal(
            PROTOCOL_VERSION as nat,
        ) + ", peer "@ + decimal(peer as nat),
        AgentError::ExpectedHello(_) => "expected Hello, got "@ + shown,
        AgentError::UnknownKey(key) => "unknown fn_key: "@ + key@,
        AgentError::Unexpected(_) => "unexpected message: "@ + shown,
    }
}

/// The text of an agent's failure; `shown` is the offending message as displayed.
pub fn agent_failure_message(e: &AgentError, shown: &str) -> (r: String)
    ensures
        r@ == agent_failure(*e, shown@),
        r@ == match *e {
            AgentError::VersionMismatch { peer } => "protocol mismatch: local "@ + decimal(11)
                + ", peer "@ + decimal(peer as nat),
            AgentError::ExpectedHello(_) => "expected Hello, got "@ + shown@,
            AgentError::UnknownKey(key) => "unknown fn_key: "@ + key@,
            AgentError::Unexpected(_) => "unexpected message: "@ + shown@,
        },
{
    match e {
        AgentError::VersionMismatch { peer } => {
            let mut r = "protocol mismatch: local ".to_owned();
            push_decimal(&mut r, PROTOCOL_VERSION as u64);
            r.append(", peer ");
            push_decimal(&mut r, *peer as u64);
            r
        },
        AgentError::ExpectedHello(_) => {
            let mut r = "expected Hello, got ".to_owned();
            r.append(shown);
            r
        },
        AgentError::UnknownKey(key) => {
            let mut r = "unknown fn_key: ".to_owned();
            r.append(key.as_str());
            r
        },
        AgentError::Unexpected(_) => {
            let mut r = "unexpected message: ".to_owned();
            r.append(shown);
            r
        },
    }
}

/// What the opening message of a conversation gives: the run's function key and
/// liveness settings, provided it is a `Hello` of this protocol version.
pub open spec fn hello(message: Option<ToAgent>) -> Result<(String, HeartbeatConfig), AgentError> {
    match message {
        Some(ToAgent::Hello { protocol_version, fn_key, heartbeat }) => if protocol_version
            == PROTOCOL_VERSION {
            Ok((fn_key, heartbeat))
        } else {
            Err(AgentError::VersionMismatch { peer: protocol_version })
        },
        other => Err(AgentError::ExpectedHello(other)),
    }
}

/// Read the opening message of a conversation. Leaves and relays begin alike.
pub fn recv_hello(message: Option<ToAgent>) -> (r: Result<(String, HeartbeatConfig), AgentError>)
    ensures
        r == hello(message),
        match message {
            Some(ToAgent::Hello { protocol_version, fn_key, heartbeat }) => if protocol_version
                == 11 {
                r == Ok::<(String, HeartbeatConfig), AgentError>((fn_key, heartbeat))
            } else {
                r == Err::<(String, HeartbeatConfig), AgentError>(
                    AgentError::VersionMismatch { peer: protocol_version },
                )
            },
            other => r == Err::<(String, HeartbeatConfig), AgentError>(
                AgentError::ExpectedHello(other),
            ),
        },
{
    match message {
        Some(ToAgent::Hello { protocol_version, fn_key, heartbeat }) => {
            if protocol_version != PROTOCOL_VERSION {
                return Err(AgentError::VersionMismatch { peer: protocol_version });
            }
            Ok((fn_key, heartbeat))
        },
        other => Err(AgentError::ExpectedHello(other)),
    }
}

/// What a leaf asks its surroundings to do, one after the other.
#[derive(Debug)]
pub enum LeafAction {
    /// Send a message to the parent.
    Send(FromAgent),
    /// Sample the machine's utilisation with this many tasks running, and send it.
    Sample {
        /// Tasks running.
        in_flight: usize,
    },
    /// Run a task and hand its outcome back.
    Run {
        /// The task.
        task_id: TaskId,
        /// Its serialized input.
        payload: Vec<u8>,
    },
    /// End the conversation.
    Stop,
}

/// A [`LeafAction`] as a mathematical value.
pub enum LeafModel {
    Send { message: FromAgentModel },
    Sample { in_flight: usize },
    Run { task_id: TaskId, payload: Seq<u8> },
    Stop,
}

impl View for LeafAction {
    type V = LeafModel;

    open spec fn view(&self) -> LeafModel {
        match *self {
            LeafAction::Send(message) => LeafModel::Send { message: message@ },
            LeafAction::Sample { in_flight } => LeafModel::Sample { in_flight },
            LeafAction::Run { task_id, payload } => LeafModel::Run { task_id, payload: payload@ },
            LeafAction::Stop => LeafModel::Stop,
        }
    }
}

/// Each action in turn as a mathematical value.
pub open spec fn leaf_actions(v: Seq<LeafAction>) -> Seq<LeafModel> {
    Seq::new(v.len(), |i: int| v[i]@)
}

/// The request for a sample, if one is due.
pub open spec fn sampling(last: u64, now: u64, in_flight: usize) -> Seq<LeafModel> {
    if sample_due(last, now) {
        seq![LeafModel::Sample { in_flight }]
    } else {
        Seq::empty()
    }
}

/// A leaf serving one run: one task at a time.
#[derive(Debug)]
pub struct Leaf {
    /// When the last sample was taken.
    pub last_sample: u64,
    /// The task it is running.
    pub running: Option<TaskId>,
}

/// The message a sample is sent as. The parent fills in the host.
pub fn sample_message(telemetry: NodeTelemetry) -> (r: FromAgent)
    ensures
        r@ == (FromAgentModel::Observe {
            event: EventModel::Telemetry { host: Seq::empty(), telemetry },
        }),
{
    let r = FromAgent::Observe(Event::Telemetry { host: String::new(), telemetry });
    proof {
        assert(r@ == (FromAgentModel::Observe {
            event: EventModel::Telemetry { host: Seq::empty(), telemetry },
        }));
    }
    r
}

impl Leaf {
    /// Open the conversation: the run's key must be registered, and the leaf then
    /// readies with a single slot. Returns the leaf, the run's key and the message
    /// to send.
    pub fn open<H>(message: Option<ToAgent>, registry: &Registry<H>, now: u64) -> (r: Result<
        (Leaf, String, FromAgent),
        AgentError,
    >)
        requires
            registry.wf(),
        ensures
            match hello(message) {
                Err(e) => r == Err::<(Leaf, String, FromAgent), AgentError>(e),
                Ok((key, _)) => if registry@.contains_key(key@) {
                    &&& r matches Ok((leaf, found, reply))
                    &&& leaf == (Leaf { last_sample: now, running: None })
                    &&& found == key
                    &&& reply == (FromAgent::Ready { slots: 1 })
                } else {
                    r == Err::<(Leaf, String, FromAgent), AgentError>(AgentError::UnknownKey(key))
                },
            },
    {
        match recv_hello(message) {
            Err(e) => Err(e),
            Ok((key, _)) => {
                if registry.get(key.as_str()).is_none() {
                    return Err(AgentError::UnknownKey(key));
                }
                Ok((Leaf { last_sample: now, running: None }, key, FromAgent::Ready { slots: 1 }))
            },
        }
    }

    /// What to do on the next message of the parent (`None`: it left). A task is
    /// announced, with a sample if one is due, and run; a probe is answered; a
    /// control message can only be about a node below, of which there is none.
    pub fn on_message(&mut self, message: Option<ToAgent>, now: u64) -> (r: Result<
        Vec<LeafAction>,
        AgentError,
    >)
        requires
            old(self).running is None,
        ensures
            match message {
                Some(ToAgent::Assign { task_id, payload }) => {
                    &&& r matches Ok(v)
                    &&& leaf_actions(v@) == seq![
                        LeafModel::Send { message: FromAgentModel::Started { task_id } },
                    ] + sampling(old(self).last_sample, now, 1) + seq![
                        LeafModel::Run { task_id, payload: payload@ },
                    ]
                    &&& final(self).running == Some(task_id)
                    &&& final(self).last_sample == if sample_due(old(self).last_sample, now) {
                        now
                    } else {
                        old(self).last_sample
                    }
                },
                Some(ToAgent::Ping) => {
                    &&& r matches Ok(v)
                    &&& leaf_actions(v@) == seq![LeafModel::Send { message: FromAgentModel::Pong }]
                    &&& *final(self) == *old(self)
                },
                Some(ToAgent::Control { .. }) => {
                    &&& r matches Ok(v)
                    &&& v@.len() == 0
                    &&& *final(self) == *old(self)
                },
                Some(ToAgent::Shutdown) => {
                    &&& r matches Ok(v)
                    &&& leaf_actions(v@) == seq![LeafModel::Stop]
                    &&& *final(self) == *old(self)
                },
                None => {
                    &&& r matches Ok(v)
                    &&& leaf_actions(v@) == seq![LeafModel::Stop]
                    &&& *final(self) == *old(self)
                },
                Some(other) => {
                    &&& r == Err::<Vec<LeafAction>, AgentError>(AgentError::Unexpected(other))
                    &&& *final(self) == *old(self)
                },
            },
    {
        let mut v: Vec<LeafAction> = Vec::new();
        let ghost last = self.last_sample;
        match message {
            Some(ToAgent::Assign { task_id, payload }) => {
                v.push(LeafAction::Send(FromAgent::Started { task_id }));
                if due_sample(&mut self.last_sample, now) {
                    v.push(LeafAction::Sample { in_flight: 1 });
                }
                v.push(LeafAction::Run { task_id, payload });
                self.running = Some(task_id);
                proof {
                    assert(leaf_actions(v@) =~= seq![
                        LeafModel::Send { message: FromAgentModel::Started { task_id } },
                    ] + sampling(last, now, 1) + seq![
                        LeafModel::Run { task_id, payload: payload@ },
                    ]);
                }
                Ok(v)
            },
            Some(ToAgent::Ping) => {
                v.push(LeafAction::Send(FromAgent::Pong));
                proof {
                    assert(leaf_actions(v@) =~= seq![
                        LeafModel::Send { message: FromAgentModel::Pong },
                    ]);
                }
                Ok(v)
            },
            Some(ToAgent::Control { .. }) => Ok(v),
            Some(ToAgent::Shutdown) => {
                v.push(LeafAction::Stop);
                proof {
                    assert(leaf_actions(v@) =~= seq![LeafModel::Stop]);
                }
                Ok(v)
            },
            None => {
                v.push(LeafAction::Stop);
                proof {
                    assert(leaf_actions(v@) =~= seq![LeafModel::Stop]);
                }
                Ok(v)
            },
            Some(other) => Err(AgentError::Unexpected(other)),
        }
    }

    /// What to do once the running task is over: report its outcome, with a sample
    /// if one is due. The leaf ran it itself, so the path down to the runner is
    /// empty.
    pub fn on_outcome(&mut self, outcome: Outcome, now: u64) -> (r: Vec<LeafAction>)
        requires
            old(self).running is Some,
        ensures
            leaf_actions(r@) == seq![
                LeafModel::Send {
                    message: match outcome {
                        Ok(output) => FromAgentModel::Completed {
                            task_id: old(self).running->0,
                            output: output@,
                            via: Seq::empty(),
                        },
                        Err(error) => FromAgentModel::Failed {
                            task_id: old(self).running->0,
                            error: error@,
                            via: Seq::empty(),
                        },
                    },
                },
            ] + sampling(old(self).last_sample, now, 0),
            final(self).running is None,
            final(self).last_sample == if sample_due(old(self).last_sample, now) {
                now
            } else {
                old(self).last_sample
            },
    {
        let mut v: Vec<LeafAction> = Vec::new();
        let ghost last = self.last_sample;
        let task_id: TaskId = self.running.unwrap();
        match outcome {
            Ok(output) => {
                let message = FromAgent::Completed { task_id, output, via: String::new() };
                v.push(LeafAction::Send(message));
            },
            Err(error) => {
                let message = FromAgent::Failed { task_id, error, via: String::new() };
                v.push(LeafAction::Send(message));
            },
        }
        let ghost sent = v@[0]@;
        if due_sample(&mut self.last_sample, now) {
            v.push(LeafAction::Sample { in_flight: 0 });
        }
        self.running = None;
        proof {
            assert(leaf_actions(v@) =~= seq![sent] + sampling(
                last,
                now,
                0,
            ));
        }
        v
    }
}

/// A sample is asked for once enough time has passed since the last, with the number of
/// tasks running then; before that none is.
pub proof fn law_samples_keep_their_distance(last: u64, now: u64, in_flight: usize)
    ensures
        now - last >= 250_000_000 ==> sampling(last, now, in_flight) == seq![
            LeafModel::Sample { in_flight },
        ],
        now - last < 250_000_000 ==> sampling(last, now, in_flight).len() == 0,
{
}

/// What a leaf is asked to do stands for all that it says: a task to run comes with its
/// whole input, a message is the very message.
pub proof fn law_leaf_actions_keep_their_contents(
    message: FromAgent,
    in_flight: usize,
    task_id: TaskId,
    payload: Vec<u8>,
)
    ensures
        LeafAction::Send(message)@ == (LeafModel::Send { message: message@ }),
        (LeafAction::Sample { in_flight })@ == (LeafModel::Sample { in_flight }),
        (LeafAction::Run { task_id, payload })@ == (LeafModel::Run { task_id, payload: payload@ }),
        LeafAction::Stop@ == LeafModel::Stop,
{
}

/// A conversation is opened by a greeting of this very version, which gives the run's
/// key and liveness settings; any other version and any other message is refused, naming
/// what came.
pub proof fn law_a_greeting_opens(
    protocol_version: u32,
    fn_key: String,
    heartbeat: HeartbeatConfig,
    other: Option<ToAgent>,
)
    ensures
        protocol_version == 11 ==> hello(
            Some(ToAgent::Hello { protocol_version, fn_key, heartbeat }),
        ) == Ok::<(String, HeartbeatConfig), AgentError>((fn_key, heartbeat)),
        protocol_version != 11 ==> hello(
            Some(ToAgent::Hello { protocol_version, fn_key, heartbeat }),
        ) == Err::<(String, HeartbeatConfig), AgentError>(
            AgentError::VersionMismatch { peer: protocol_version },
        ),
        !(other matches Some(ToAgent::Hello { .. })) ==> hello(other) == Err::<
            (String, HeartbeatConfig),
            AgentError,
        >(AgentError::ExpectedHello(other)),
{
}

} // verus!
