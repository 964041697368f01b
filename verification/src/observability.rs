//! The observability stream of a run and its reduced live picture.
//!
//! A host is named by its path from the coordinator: the labels of the relays on
//! the way down and its own, joined by `/`.
use vstd::prelude::*;
use vstd::string::*;

use crate::capability::{NodeProfile, ProfileModel, Role};
use crate::names::NameMap;
use crate::protocol::TaskId;
use crate::text::{decimal, from_chars, push_decimal, to_chars};

verus! {

/// Where a node stands in its lifecycle.
#[derive(Debug, Clone, Copy, PartialEq, Eq, Structural)]
pub enum NodeState {
    /// Confirming the host responds.
    Probing,
    /// Installing the toolchain.
    Installing,
    /// Shipping and unpacking the crate source.
    Syncing,
    /// Compiling the agent on the host.
    Building,
    /// Built and ready to receive tasks.
    Ready,
    /// Running at least one task.
    Working,
    /// Connected and ready but with no task in flight.
    Idle,
    /// Connected but given no new tasks until it is resumed.
    Paused,
    /// Finishing the tasks it holds before it stops.
    Draining,
    /// The run finished on this node.
    Done,
    /// The node's connection dropped; its in-flight work was requeued.
    Lost,
}

impl NodeState {
    /// The state's name.
    pub open spec fn spec_name(self) -> Seq<char> {
        match self {
            NodeState::Probing => "Probing"@,
            NodeState::Installing => "Installing"@,
            NodeState::Syncing => "Syncing"@,
            NodeState::Building => "Building"@,
            NodeState::Ready => "Ready"@,
            NodeState::Working => "Working"@,
            NodeState::Idle => "Idle"@,
            NodeState::Paused => "Paused"@,
            NodeState::Draining => "Draining"@,
            NodeState::Done => "Done"@,
            NodeState::Lost => "Lost"@,
        }
    }

    /// The state's name.
    pub fn name(self) -> (r: &'static str)
        ensures
            r@ == self.spec_name(),
            r@ == match self {
                NodeState::Probing => "Probing"@,
                NodeState::Installing => "Installing"@,
                NodeState::Syncing => "Syncing"@,
                NodeState::Building => "Building"@,
                NodeState::Ready => "Ready"@,
                NodeState::Working => "Working"@,
                NodeState::Idle => "Idle"@,
                NodeState::Paused => "Paused"@,
                NodeState::Draining => "Draining"@,
                NodeState::Done => "Done"@,
                NodeState::Lost => "Lost"@,
            },
    {
        match self {
            NodeState::Probing => "Probing",
            NodeState::Installing => "Installing",
            NodeState::Syncing => "Syncing",
            NodeState::Building => "Building",
            NodeState::Ready => "Ready",
            NodeState::Working => "Working",
            NodeState::Idle => "Idle",
            NodeState::Paused => "Paused",
            NodeState::Draining => "Draining",
            NodeState::Done => "Done",
            NodeState::Lost => "Lost",
        }
    }
}

/// One sample of how busy a node is.
#[derive(Debug, Clone, Copy, PartialEq, Eq, Structural)]
pub struct NodeTelemetry {
    /// Processor use in percent.
    pub cpu_pct: u8,
    /// Memory use in percent.
    pub mem_pct: u8,
    /// GPU use in percent, where there is a GPU.
    pub gpu_pct: Option<u8>,
    /// GPU memory use in percent, where there is a GPU.
    pub gpu_mem_pct: Option<u8>,
    /// Tasks running on the node.
    pub in_flight: usize,
}

/// One observability event.
#[derive(Debug, Clone, PartialEq, Eq)]
pub enum Event {
    /// The run began with this many tasks (the progress denominator).
    RunStarted {
        /// Total number of tasks in the run.
        tasks: usize,
    },
    /// A node entered a new [`NodeState`].
    Node {
        /// The host the event is about.
        host: String,
        /// The state the host just entered.
        state: NodeState,
    },
    /// A host was probed for its capabilities and assigned a scheduling role.
    Profiled {
        /// The host that was probed.
        host: String,
        /// The stable id of the machine behind the host name, if it gave one.
        id: Option<String>,
        /// The capabilities the probe found.
        profile: NodeProfile,
        /// The role the fleet filter assigned from that profile.
        role: Role,
        /// The measured latency of the link to the host, in microseconds.
        latency_us: Option<u64>,
    },
    /// A node sampled how busy it is.
    Telemetry {
        /// The host that was sampled.
        host: String,
        /// The sample.
        telemetry: NodeTelemetry,
    },
    /// A task began running on a host.
    TaskStarted {
        /// The host running the task.
        host: String,
        /// The task identifier.
        task: TaskId,
    },
    /// A task finished on a host, successfully or not.
    TaskFinished {
        /// The host that ran the task.
        host: String,
        /// The task identifier.
        task: TaskId,
        /// Whether the task completed successfully.
        ok: bool,
    },
}

/// An [`Event`] as a mathematical value.
pub enum EventModel {
    RunStarted { tasks: usize },
    Node { host: Seq<char>, state: NodeState },
    Profiled {
        host: Seq<char>,
        id: Option<Seq<char>>,
        profile: ProfileModel,
        role: Role,
        latency_us: Option<u64>,
    },
    Telemetry { host: Seq<char>, telemetry: NodeTelemetry },
    TaskStarted { host: Seq<char>, task: TaskId },
    TaskFinished { host: Seq<char>, task: TaskId, ok: bool },
}

/// The characters of an optional text.
pub open spec fn optional_text(s: Option<String>) -> Option<Seq<char>> {
    match s {
        Some(s) => Some(s@),
        None => None,
    }
}

/// Copy an optional text.
pub fn copy_optional(s: &Option<String>) -> (r: Option<String>)
    ensures
        r == *s,
{
    match s {
        Some(s) => Some(s.clone()),
        None => None,
    }
}

impl View for Event {
    type V = EventModel;

    open spec fn view(&self) -> EventModel {
        match *self {
            Event::RunStarted { tasks } => EventModel::RunStarted { tasks },
            Event::Node { host, state } => EventModel::Node { host: host@, state },
            Event::Profiled { host, id, profile, role, latency_us } => EventModel::Profiled {
                host: host@,
                id: optional_text(id),
                profile: profile@,
                role,
                latency_us,
            },
            Event::Telemetry { host, telemetry } => EventModel::Telemetry { host: host@, telemetry },
            Event::TaskStarted { host, task } => EventModel::TaskStarted { host: host@, task },
            Event::TaskFinished { host, task, ok } => EventModel::TaskFinished {
                host: host@,
                task,
                ok,
            },
        }
    }
}

/// The path of a node reached by `rest` below `label`; an empty `rest` is the
/// node `label` itself.
pub open spec fn joined_label(label: Seq<char>, rest: Seq<char>) -> Seq<char> {
    if rest.len() == 0 {
        label
    } else {
        label + "/"@ + rest
    }
}

/// The path of a node reached by `rest` below `label`; an empty `rest` is the
/// node `label` itself.
pub fn join_label(label: &str, rest: &str) -> (r: String)
    ensures
        r@ == joined_label(label@, rest@),
{
    let mut r = label.to_owned();
    if !rest.is_empty() {
        r.append("/");
        r.append(rest);
    }
    r
}

/// The path one hop up: everything before the last `/`.
pub open spec fn parent_path(path: Seq<char>) -> Option<Seq<char>>
    decreases path.len(),
{
    if path.len() == 0 {
        None
    } else if path.last() == '/' {
        Some(path.drop_last())
    } else {
        parent_path(path.drop_last())
    }
}

/// The node's own label: everything after the last `/`.
pub open spec fn leaf_label(path: Seq<char>) -> Seq<char>
    decreases path.len(),
{
    if path.len() == 0 || path.last() == '/' {
        Seq::empty()
    } else {
        leaf_label(path.drop_last()).push(path.last())
    }
}

/// A path without a `/` after position `at` splits there.
proof fn lemma_split(path: Seq<char>, at: int)
    requires
        -1 <= at < path.len(),
        at >= 0 ==> path[at] == '/',
        forall|j: int| at < j < path.len() ==> path[j] != '/',
    ensures
        at >= 0 ==> parent_path(path) == Some(path.take(at)),
        at < 0 ==> parent_path(path) is None,
        leaf_label(path) == path.skip(at + 1),
    decreases path.len(),
{
    if path.len() == 0 {
        assert(path.skip(0) =~= Seq::empty());
    } else if at == path.len() - 1 {
        assert(path.drop_last() =~= path.take(at));
        assert(path.skip(at + 1) =~= Seq::empty());
    } else {
        let rest = path.drop_last();
        lemma_split(rest, at);
        if at >= 0 {
            assert(rest.take(at) =~= path.take(at));
        }
        assert(rest.skip(at + 1).push(path.last()) =~= path.skip(at + 1));
    }
}

/// A node with a parent is reached from it by one more hop.
pub proof fn lemma_parent_then_leaf(path: Seq<char>)
    ensures
        match parent_path(path) {
            Some(parent) => path == parent + seq!['/'] + leaf_label(path) && parent.len()
                < path.len(),
            None => path == leaf_label(path),
        },
    decreases path.len(),
{
    if path.len() == 0 {
        assert(path =~= leaf_label(path));
    } else if path.last() == '/' {
        assert(path =~= path.drop_last() + seq!['/'] + Seq::empty());
    } else {
        let rest = path.drop_last();
        lemma_parent_then_leaf(rest);
        assert(path =~= rest.push(path.last()));
        match parent_path(rest) {
            Some(parent) => {
                assert(path =~= parent + seq!['/'] + leaf_label(path));
            },
            None => {
                assert(path =~= leaf_label(path));
            },
        }
    }
}

/// A label without `/` is its own leaf under any parent, and that parent is found
/// again: joining a label below a path and going one hop up give the path back.
pub proof fn law_joining_then_going_up(path: Seq<char>, label: Seq<char>)
    requires
        label.len() > 0,
        !label.contains('/'),
    ensures
        parent_path(joined_label(path, label)) == Some(path),
        leaf_label(joined_label(path, label)) == label,
{
    reveal_strlit("/");
    let whole = joined_label(path, label);
    assert(whole[path.len() as int] == '/');
    assert forall|j: int| path.len() < j < whole.len() implies whole[j] != '/' by {
        assert(whole[j] == label[j - path.len() - 1]);
    }
    lemma_split(whole, path.len() as int);
    assert(whole.take(path.len() as int) =~= path);
    assert(whole.skip(path.len() as int + 1) =~= label);
}

/// Prefixing hop by hop up the tree is prefixing once with the joined path.
pub proof fn lemma_join_associates(a: Seq<char>, b: Seq<char>, rest: Seq<char>)
    requires
        b.len() > 0,
    ensures
        joined_label(a, joined_label(b, rest)) == joined_label(joined_label(a, b), rest),
{
    assert(joined_label(a, joined_label(b, rest)) =~= joined_label(joined_label(a, b), rest));
}

/// The position just after the last `/` of `v`, or zero.
fn after_last_slash(v: &Vec<char>) -> (r: usize)
    ensures
        r <= v@.len(),
        r > 0 ==> v@[r - 1] == '/',
        forall|j: int| r <= j < v@.len() ==> v@[j] != '/',
{
    let mut i: usize = v.len();
    while i > 0 && v[i - 1] != '/'
        invariant
            i <= v@.len(),
            forall|j: int| i <= j < v@.len() ==> v@[j] != '/',
        decreases i,
    {
        i -= 1;
    }
    i
}

/// The path one hop up, or `None` for a top-level node.
pub fn parent_of(path: &str) -> (r: Option<String>)
    ensures
        optional_text(r) == parent_path(path@),
{
    let chars = to_chars(path);
    let at: usize = after_last_slash(&chars);
    proof {
        lemma_split(path@, at as int - 1);
    }
    if at == 0 {
        None
    } else {
        let r = from_chars(&chars, 0, at - 1);
        proof {
            assert(r@ =~= path@.take(at as int - 1));
        }
        Some(r)
    }
}

/// The node's own label, without the relays on the way to it.
pub fn leaf_of(path: &str) -> (r: String)
    ensures
        r@ == leaf_label(path@),
{
    let chars = to_chars(path);
    let at: usize = after_last_slash(&chars);
    proof {
        lemma_split(path@, at as int - 1);
    }
    let r = from_chars(&chars, at, chars.len());
    proof {
        assert(r@ =~= path@.skip(at as int));
    }
    r
}

impl EventModel {
    /// The event with its host seen from one level further up, below `label`.
    pub open spec fn prefixed(self, label: Seq<char>) -> EventModel {
        match self {
            EventModel::RunStarted { tasks } => EventModel::RunStarted { tasks },
            EventModel::Node { host, state } => EventModel::Node {
                host: joined_label(label, host),
                state,
            },
            EventModel::Profiled { host, id, profile, role, latency_us } => EventModel::Profiled {
                host: joined_label(label, host),
                id,
                profile,
                role,
                latency_us,
            },
            EventModel::Telemetry { host, telemetry } => EventModel::Telemetry {
                host: joined_label(label, host),
                telemetry,
            },
            EventModel::TaskStarted { host, task } => EventModel::TaskStarted {
                host: joined_label(label, host),
                task,
            },
            EventModel::TaskFinished { host, task, ok } => EventModel::TaskFinished {
                host: joined_label(label, host),
                task,
                ok,
            },
        }
    }
}

/// Passing an event up through two relays names its host by the joined path.
pub proof fn law_prefixing_twice_joins_the_path(event: EventModel, outer: Seq<char>, inner: Seq<char>)
    requires
        inner.len() > 0,
    ensures
        event.prefixed(inner).prefixed(outer) == event.prefixed(joined_label(outer, inner)),
{
    match event {
        EventModel::RunStarted { tasks } => {},
        EventModel::Node { host, state } => {
            lemma_join_associates(outer, inner, host);
        },
        EventModel::Profiled { host, id, profile, role, latency_us } => {
            lemma_join_associates(outer, inner, host);
        },
        EventModel::Telemetry { host, telemetry } => {
            lemma_join_associates(outer, inner, host);
        },
        EventModel::TaskStarted { host, task } => {
            lemma_join_associates(outer, inner, host);
        },
        EventModel::TaskFinished { host, task, ok } => {
            lemma_join_associates(outer, inner, host);
        },
    }
}

impl Event {
    /// Build a node-state-change event for `host`.
    pub fn node(host: &str, state: NodeState) -> (r: Event)
        ensures
            r@ == (EventModel::Node { host: host@, state }),
    {
        Event::Node { host: host.to_owned(), state }
    }

    /// Build a capability-and-role event for `host`.
    pub fn profiled(host: &str, profile: NodeProfile, role: Role) -> (r: Event)
        ensures
            r@ == (EventModel::Profiled {
                host: host@,
                id: None,
                profile: profile@,
                role,
                latency_us: None,
            }),
    {
        Event::Profiled { host: host.to_owned(), id: None, profile, role, latency_us: None }
    }

    /// Build a capability-and-role event for a host whose machine id and link
    /// latency are known.
    pub fn identified(
        host: &str,
        id: &str,
        profile: NodeProfile,
        role: Role,
        latency_us: u64,
    ) -> (r: Event)
        ensures
            r@ == (EventModel::Profiled {
                host: host@,
                id: Some(id@),
                profile: profile@,
                role,
                latency_us: Some(latency_us),
            }),
    {
        Event::Profiled {
            host: host.to_owned(),
            id: Some(id.to_owned()),
            profile,
            role,
            latency_us: Some(latency_us),
        }
    }

    /// The event with its host seen from one level further up, below `label`.
    pub fn prefix_host(self, label: &str) -> (r: Event)
        ensures
            r@ == self@.prefixed(label@),
    {
        match self {
            Event::RunStarted { tasks } => Event::RunStarted { tasks },
            Event::Node { host, state } => Event::Node {
                host: join_label(label, host.as_str()),
                state,
            },
            Event::Profiled { host, id, profile, role, latency_us } => Event::Profiled {
                host: join_label(label, host.as_str()),
                id,
                profile,
                role,
                latency_us,
            },
            Event::Telemetry { host, telemetry } => Event::Telemetry {
                host: join_label(label, host.as_str()),
                telemetry,
            },
            Event::TaskStarted { host, task } => Event::TaskStarted {
                host: join_label(label, host.as_str()),
                task,
            },
            Event::TaskFinished { host, task, ok } => Event::TaskFinished {
                host: join_label(label, host.as_str()),
                task,
                ok,
            },
        }
    }

    /// An equal event.
    pub fn copy(&self) -> (r: Event)
        ensures
            r@ == self@,
    {
        match self {
            Event::RunStarted { tasks } => Event::RunStarted { tasks: *tasks },
            Event::Node { host, state } => Event::Node { host: host.clone(), state: *state },
            Event::Profiled { host, id, profile, role, latency_us } => Event::Profiled {
                host: host.clone(),
                id: copy_optional(id),
                profile: profile.copy(),
                role: *role,
                latency_us: *latency_us,
            },
            Event::Telemetry { host, telemetry } => Event::Telemetry {
                host: host.clone(),
                telemetry: *telemetry,
            },
            Event::TaskStarted { host, task } => Event::TaskStarted {
                host: host.clone(),
                task: *task,
            },
            Event::TaskFinished { host, task, ok } => Event::TaskFinished {
                host: host.clone(),
                task: *task,
                ok: *ok,
            },
        }
    }
}

/// A consumer of the observability event stream.
pub trait EventSink: Send + Sync {
    /// Record one event. Must not block the run.
    fn emit(&self, event: Event);
}

/// An [`EventSink`] that discards every event: the default for an unobserved run.
#[derive(Debug)]
pub struct NoopSink;

impl EventSink for NoopSink {
    fn emit(&self, _event: Event) {
    }
}

/// One host's reduced view: its current state and how much it has finished.
#[derive(Debug, Clone, PartialEq, Eq)]
pub struct NodeView {
    /// The host's current lifecycle state.
    pub state: NodeState,
    /// Tasks this host has finished (ok or err).
    pub completed: usize,
    /// The host's probed capabilities, once it has been profiled.
    pub profile: Option<NodeProfile>,
    /// The role the fleet filter assigned, once it has been profiled.
    pub role: Option<Role>,
    /// The stable id of the machine behind the host name, once known.
    pub id: Option<String>,
    /// The measured latency of the link to the host, in microseconds.
    pub latency_us: Option<u64>,
    /// The latest utilisation sample.
    pub telemetry: Option<NodeTelemetry>,
}

/// A [`NodeView`] as a mathematical value.
pub struct NodeModel {
    pub state: NodeState,
    pub completed: nat,
    pub profile: Option<ProfileModel>,
    pub role: Option<Role>,
    pub id: Option<Seq<char>>,
    pub latency_us: Option<u64>,
    pub telemetry: Option<NodeTelemetry>,
}

impl View for NodeView {
    type V = NodeModel;

    open spec fn view(&self) -> NodeModel {
        NodeModel {
            state: self.state,
            completed: self.completed as nat,
            profile: match self.profile {
                Some(profile) => Some(profile@),
                None => None,
            },
            role: self.role,
            id: optional_text(self.id),
            latency_us: self.latency_us,
            telemetry: self.telemetry,
        }
    }
}

/// The live, reduced picture of a run: per-node state and task tallies.
#[derive(Debug, Clone, PartialEq, Eq)]
pub struct RunState {
    /// Total tasks in the run (the progress denominator).
    pub total_tasks: usize,
    /// Tasks that finished successfully.
    pub completed: usize,
    /// Tasks that finished with an error.
    pub failed: usize,
    /// Per-host view, ordered by host name.
    pub nodes: NameMap<NodeView>,
}

/// A [`RunState`] as a mathematical value.
pub struct RunModel {
    pub total_tasks: nat,
    pub completed: nat,
    pub failed: nat,
    pub nodes: Map<Seq<char>, NodeModel>,
}

/// What is known of a host on first sighting.
pub open spec fn first_sighting() -> NodeModel {
    NodeModel {
        state: NodeState::Working,
        completed: 0,
        profile: None,
        role: None,
        id: None,
        latency_us: None,
        telemetry: None,
    }
}

impl RunModel {
    /// What is known of `host`, or the first sighting's defaults.
    pub open spec fn seen(self, host: Seq<char>) -> NodeModel {
        if self.nodes.contains_key(host) {
            self.nodes[host]
        } else {
            first_sighting()
        }
    }

    /// The picture with `host` shown as `node`.
    pub open spec fn with_node(self, host: Seq<char>, node: NodeModel) -> RunModel {
        RunModel { nodes: self.nodes.insert(host, node), ..self }
    }

    /// The picture of a run nothing has been heard of.
    pub open spec fn unheard() -> RunModel {
        RunModel { total_tasks: 0, completed: 0, failed: 0, nodes: Map::empty() }
    }

    /// The picture once the first `n` of `events` are folded in, in order.
    pub open spec fn through(self, events: Seq<EventModel>, n: int) -> RunModel
        decreases n,
    {
        if n <= 0 {
            self
        } else {
            self.through(events, n - 1).after(events[n - 1])
        }
    }

    /// The picture once `event` is folded in.
    pub open spec fn after(self, event: EventModel) -> RunModel {
        match event {
            EventModel::RunStarted { tasks } => RunModel { total_tasks: tasks as nat, ..self },
            EventModel::Node { host, state } => self.with_node(
                host,
                NodeModel { state, ..self.seen(host) },
            ),
            EventModel::Profiled { host, id, profile, role, latency_us } => self.with_node(
                host,
                NodeModel {
                    profile: Some(profile),
                    role: Some(role),
                    id,
                    latency_us,
                    ..self.seen(host)
                },
            ),
            EventModel::Telemetry { host, telemetry } => self.with_node(
                host,
                NodeModel { telemetry: Some(telemetry), ..self.seen(host) },
            ),
            EventModel::TaskStarted { host, .. } => self.with_node(host, self.seen(host)),
            EventModel::TaskFinished { host, ok, .. } => {
                let counted = self.with_node(
                    host,
                    NodeModel { completed: self.seen(host).completed + 1, ..self.seen(host) },
                );
                if ok {
                    RunModel { completed: counted.completed + 1, ..counted }
                } else {
                    RunModel { failed: counted.failed + 1, ..counted }
                }
            },
        }
    }

    /// Whether one more finished task can be counted in machine integers.
    pub open spec fn can_count(self, event: EventModel) -> bool {
        event matches EventModel::TaskFinished { host, .. } ==> self.seen(host).completed
            < usize::MAX && self.completed + self.failed < usize::MAX
    }
}

impl View for RunState {
    type V = RunModel;

    open spec fn view(&self) -> RunModel {
        RunModel {
            total_tasks: self.total_tasks as nat,
            completed: self.completed as nat,
            failed: self.failed as nat,
            nodes: self.nodes@.map_values(|v: NodeView| v@),
        }
    }
}

impl RunState {
    /// Every host has one view, and the hosts are in name order.
    pub open spec fn wf(&self) -> bool {
        self.nodes.wf()
    }

    /// A picture of a run nothing has been heard of.
    pub fn new() -> (r: RunState)
        ensures
            r.wf(),
            r@ == RunModel::unheard(),
    {
        let r = RunState { total_tasks: 0, completed: 0, failed: 0, nodes: NameMap::new() };
        proof {
            assert(r@.nodes =~= Map::empty());
        }
        r
    }

    /// A copy of what is known of `host`, or the first sighting's defaults if it
    /// was never heard of.
    fn node(&self, host: &str) -> (r: NodeView)
        requires
            self.wf(),
        ensures
            r@ == self@.seen(host@),
    {
        match self.nodes.get(host) {
            Some(view) => NodeView {
                state: view.state,
                completed: view.completed,
                profile: match &view.profile {
                    Some(profile) => Some(profile.copy()),
                    None => None,
                },
                role: view.role,
                id: copy_optional(&view.id),
                latency_us: view.latency_us,
                telemetry: view.telemetry,
            },
            None => NodeView {
                state: NodeState::Working,
                completed: 0,
                profile: None,
                role: None,
                id: None,
                latency_us: None,
                telemetry: None,
            },
        }
    }

    /// Show `host` as `view`.
    fn show(&mut self, host: &str, view: NodeView)
        requires
            old(self).wf(),
        ensures
            final(self).wf(),
            final(self)@ == old(self)@.with_node(host@, view@),
    {
        self.nodes.set(host, view);
        proof {
            assert(self@.nodes =~= old(self)@.nodes.insert(host@, view@));
        }
    }

    /// Fold one event into the state.
    pub fn apply(&mut self, event: &Event)
        requires
            old(self).wf(),
            old(self)@.can_count(event@),
        ensures
            final(self).wf(),
            final(self)@ == old(self)@.after(event@),
    {
        match event {
            Event::RunStarted { tasks } => {
                self.total_tasks = *tasks;
            },
            Event::Node { host, state } => {
                let mut view = self.node(host.as_str());
                view.state = *state;
                self.show(host.as_str(), view);
            },
            Event::Profiled { host, id, profile, role, latency_us } => {
                let mut view = self.node(host.as_str());
                view.profile = Some(profile.copy());
                view.role = Some(*role);
                view.id = copy_optional(id);
                view.latency_us = *latency_us;
                self.show(host.as_str(), view);
            },
            Event::Telemetry { host, telemetry } => {
                let mut view = self.node(host.as_str());
                view.telemetry = Some(*telemetry);
                self.show(host.as_str(), view);
            },
            Event::TaskStarted { host, .. } => {
                let view = self.node(host.as_str());
                self.show(host.as_str(), view);
            },
            Event::TaskFinished { host, ok, .. } => {
                let mut view = self.node(host.as_str());
                view.completed += 1;
                self.show(host.as_str(), view);
                if *ok {
                    self.completed += 1;
                } else {
                    self.failed += 1;
                }
            },
        }
    }
}

impl Default for RunState {
    fn default() -> (r: RunState)
        ensures
            r.wf(),
            r@ == RunModel::unheard(),
    {
        RunState::new()
    }
}

/// A headless renderer: turns the event stream into a deterministic sequence of
/// plain lines, for non-terminal runs, logs, and CI.
#[derive(Debug)]
pub struct PlainRenderer {
    state: RunState,
}

/// The line an event prints, given the picture it leaves.
pub open spec fn plain_line(after: RunModel, event: EventModel) -> Option<Seq<char>> {
    match event {
        EventModel::RunStarted { tasks } => Some(
            "run started: "@ + decimal(tasks as nat) + " tasks"@,
        ),
        EventModel::Node { host, state } => Some(host + ": "@ + state.spec_name()),
        EventModel::Profiled { host, profile, role, .. } => Some(
            host + ": "@ + role.spec_name() + " ("@ + profile.os.spec_name() + ", "@ + decimal(
                profile.cores as nat,
            ) + " cores, "@ + decimal(profile.ram_mb as nat) + " MB RAM, "@ + decimal(
                profile.gpus.len(),
            ) + " GPUs)"@,
        ),
        EventModel::Telemetry { .. } => None,
        EventModel::TaskStarted { .. } => None,
        EventModel::TaskFinished { .. } => Some(
            "progress: "@ + decimal(after.completed + after.failed) + "/"@ + decimal(
                after.total_tasks,
            ),
        ),
    }
}

impl PlainRenderer {
    /// The renderer's picture is in order.
    pub closed spec fn wf(&self) -> bool {
        self.state.wf()
    }

    /// The picture built from the events rendered so far.
    pub closed spec fn picture(&self) -> RunModel {
        self.state@
    }

    /// A fresh renderer with empty state.
    pub fn new() -> (r: PlainRenderer)
        ensures
            r.wf(),
            r.picture() == (RunModel {
                total_tasks: 0,
                completed: 0,
                failed: 0,
                nodes: Map::empty(),
            }),
    {
        PlainRenderer { state: RunState::new() }
    }

    /// Fold `event` into the state and return the line it should print, if any.
    pub fn render(&mut self, event: &Event) -> (r: Option<String>)
        requires
            old(self).wf(),
            old(self).picture().can_count(event@),
        ensures
            final(self).wf(),
            final(self).picture() == old(self).picture().after(event@),
            optional_text(r) == plain_line(final(self).picture(), event@),
    {
        self.state.apply(event);
        match event {
            Event::RunStarted { tasks } => {
                let mut s = "run started: ".to_owned();
                push_decimal(&mut s, *tasks as u64);
                s.append(" tasks");
                Some(s)
            },
            Event::Node { host, state } => {
                let mut s = host.clone();
                s.append(": ");
                s.append(state.name());
                Some(s)
            },
            Event::Profiled { host, profile, role, .. } => {
                let mut s = host.clone();
                s.append(": ");
                s.append(role.name());
                s.append(" (");
                s.append(profile.os.name());
                s.append(", ");
                push_decimal(&mut s, profile.cores as u64);
                s.append(" cores, ");
                push_decimal(&mut s, profile.ram_mb);
                s.append(" MB RAM, ");
                push_decimal(&mut s, profile.gpus.len() as u64);
                s.append(" GPUs)");
                Some(s)
            },
            Event::Telemetry { .. } => None,
            Event::TaskStarted { .. } => None,
            Event::TaskFinished { .. } => {
                let mut s = "progress: ".to_owned();
                push_decimal(&mut s, (self.state.completed + self.state.failed) as u64);
                s.append("/");
                push_decimal(&mut s, self.state.total_tasks as u64);
                Some(s)
            },
        }
    }
}

/// A finished task is counted once, in the run's tally and for the host that ran
/// it, and no other event counts one.
pub proof fn law_a_finished_task_is_counted_once(
    before: RunModel,
    event: EventModel,
    other: Seq<char>,
)
    ensures
        ({
            let after = before.after(event);
            match event {
                EventModel::TaskFinished { host, ok, .. } => {
                    &&& after.completed + after.failed == before.completed + before.failed + 1
                    &&& after.completed == before.completed + (if ok {
                        1int
                    } else {
                        0int
                    })
                    &&& after.seen(host).completed == before.seen(host).completed + 1
                    &&& other != host ==> after.seen(other) == before.seen(other)
                },
                _ => {
                    &&& after.completed == before.completed
                    &&& after.failed == before.failed
                    &&& after.seen(other).completed == before.seen(other).completed
                },
            }
        }),
{
}

/// What an event stands for holds all that it says, and nothing else.
pub proof fn law_events_keep_their_contents(
    tasks: usize,
    host: String,
    state: NodeState,
    id: Option<String>,
    profile: NodeProfile,
    role: Role,
    latency_us: Option<u64>,
    telemetry: NodeTelemetry,
    task: TaskId,
    ok: bool,
)
    ensures
        (Event::RunStarted { tasks })@ == (EventModel::RunStarted { tasks }),
        (Event::Node { host, state })@ == (EventModel::Node { host: host@, state }),
        (Event::Profiled { host, id, profile, role, latency_us })@ matches EventModel::Profiled {
            host: h,
            id: i,
            profile: p,
            role: r,
            latency_us: l,
        } && h == host@ && (i is Some <==> id is Some) && (i is Some ==> i->0 == (id->0)@) && p
            == profile@ && r == role && l == latency_us,
        (Event::Telemetry { host, telemetry })@ == (EventModel::Telemetry {
            host: host@,
            telemetry,
        }),
        (Event::TaskStarted { host, task })@ == (EventModel::TaskStarted { host: host@, task }),
        (Event::TaskFinished { host, task, ok })@ == (EventModel::TaskFinished {
            host: host@,
            task,
            ok,
        }),
{
}

/// Seen from one level further up, an event is the same but for its host, which is then
/// the label followed by the path below it, or the label alone where that is empty.
pub proof fn law_prefixing_changes_the_host_alone(
    label: Seq<char>,
    host: Seq<char>,
    tasks: usize,
    state: NodeState,
    id: Option<Seq<char>>,
    profile: ProfileModel,
    role: Role,
    latency_us: Option<u64>,
    telemetry: NodeTelemetry,
    task: TaskId,
    ok: bool,
)
    ensures
        ({
            let whole = if host.len() == 0 {
                label
            } else {
                label + seq!['/'] + host
            };
            &&& joined_label(label, host) == whole
            &&& (EventModel::RunStarted { tasks }).prefixed(label) == (EventModel::RunStarted {
                tasks,
            })
            &&& (EventModel::Node { host, state }).prefixed(label) == (EventModel::Node {
                host: whole,
                state,
            })
            &&& (EventModel::Profiled { host, id, profile, role, latency_us }).prefixed(label) == (
            EventModel::Profiled { host: whole, id, profile, role, latency_us })
            &&& (EventModel::Telemetry { host, telemetry }).prefixed(label) == (
            EventModel::Telemetry { host: whole, telemetry })
            &&& (EventModel::TaskStarted { host, task }).prefixed(label) == (
            EventModel::TaskStarted { host: whole, task })
            &&& (EventModel::TaskFinished { host, task, ok }).prefixed(label) == (
            EventModel::TaskFinished { host: whole, task, ok })
        }),
{
    reveal_strlit("/");
    assert("/"@ =~= seq!['/']);
}

/// A path is its parent, a slash and its own label; the label holds no slash, and a path
/// without a slash has no parent.
pub proof fn law_a_path_splits_at_its_last_slash(path: Seq<char>)
    ensures
        !leaf_label(path).contains('/'),
        parent_path(path) is None <==> !path.contains('/'),
        parent_path(path) is None ==> leaf_label(path) == path,
        parent_path(path) matches Some(parent) ==> path == parent + seq!['/'] + leaf_label(path),
    decreases path.len(),
{
    lemma_parent_then_leaf(path);
    if path.len() > 0 {
        let front = path.drop_last();
        law_a_path_splits_at_its_last_slash(front);
        if path.last() != '/' {
            let leaf = leaf_label(front);
            if leaf.push(path.last()).contains('/') {
                let k = leaf.push(path.last()).index_of('/');
                if k < leaf.len() {
                    assert(leaf[k] == '/');
                }
            }
            if path.contains('/') {
                let k = path.index_of('/');
                assert(front[k] == '/');
            }
            if front.contains('/') {
                let k = front.index_of('/');
                assert(path[k] == '/');
            }
        } else {
            assert(path[path.len() - 1] == '/');
        }
    }
}

/// An event changes what it speaks of and nothing else. A host is known from its first
/// event on, and until it is told otherwise it counts as working, with no task finished
/// and nothing probed.
pub proof fn law_events_change_what_they_speak_of(
    before: RunModel,
    host: Seq<char>,
    other: Seq<char>,
    tasks: usize,
    state: NodeState,
    id: Option<Seq<char>>,
    profile: ProfileModel,
    role: Role,
    latency_us: Option<u64>,
    telemetry: NodeTelemetry,
    task: TaskId,
    ok: bool,
)
    requires
        other != host,
    ensures
        ({
            let known = if before.nodes.contains_key(host) {
                before.nodes[host]
            } else {
                NodeModel {
                    state: NodeState::Working,
                    completed: 0,
                    profile: None,
                    role: None,
                    id: None,
                    latency_us: None,
                    telemetry: None,
                }
            };
            let shows = |after: RunModel, node: NodeModel|
                after.nodes == before.nodes.insert(host, node) && after.total_tasks
                    == before.total_tasks;
            &&& before.after(EventModel::RunStarted { tasks }) == (RunModel {
                total_tasks: tasks as nat,
                ..before
            })
            &&& shows(
                before.after(EventModel::Node { host, state }),
                NodeModel { state, ..known },
            )
            &&& shows(
                before.after(EventModel::Profiled { host, id, profile, role, latency_us }),
                NodeModel { profile: Some(profile), role: Some(role), id, latency_us, ..known },
            )
            &&& shows(
                before.after(EventModel::Telemetry { host, telemetry }),
                NodeModel { telemetry: Some(telemetry), ..known },
            )
            &&& shows(before.after(EventModel::TaskStarted { host, task }), known)
            &&& shows(
                before.after(EventModel::TaskFinished { host, task, ok }),
                NodeModel { completed: known.completed + 1, ..known },
            )
        }),
        RunModel::unheard() == (RunModel {
            total_tasks: 0,
            completed: 0,
            failed: 0,
            nodes: Map::empty(),
        }),
{
}

/// What is printed of each event: the size of the run, who is in which state, what each
/// host can do and is used for, and how many tasks are over out of how many. Samples and
/// starts are not worth a line.
pub proof fn law_what_is_printed(
    after: RunModel,
    tasks: usize,
    host: Seq<char>,
    state: NodeState,
    id: Option<Seq<char>>,
    profile: ProfileModel,
    role: Role,
    latency_us: Option<u64>,
    telemetry: NodeTelemetry,
    task: TaskId,
    ok: bool,
)
    ensures
        plain_line(after, EventModel::RunStarted { tasks }) == Some(
            "run started: "@ + decimal(tasks as nat) + " tasks"@,
        ),
        plain_line(after, EventModel::Node { host, state }) == Some(
            host + ": "@ + state.spec_name(),
        ),
        plain_line(after, EventModel::Profiled { host, id, profile, role, latency_us }) == Some(
            host + ": "@ + role.spec_name() + " ("@ + profile.os.spec_name() + ", "@ + decimal(
                profile.cores as nat,
            ) + " cores, "@ + decimal(profile.ram_mb as nat) + " MB RAM, "@ + decimal(
                profile.gpus.len(),
            ) + " GPUs)"@,
        ),
        plain_line(after, EventModel::Telemetry { host, telemetry }) is None,
        plain_line(after, EventModel::TaskStarted { host, task }) is None,
        plain_line(after, EventModel::TaskFinished { host, task, ok }) == Some(
            "progress: "@ + decimal(after.completed + after.failed) + "/"@ + decimal(
                after.total_tasks,
            ),
        ),
{
}

} // verus!
