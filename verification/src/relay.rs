//! The relay: a node that is an agent to its parent and a coordinator to its own
//! children.
//!
//! A task assigned from above goes to a free child, and what a child reports of a
//! task goes straight up with its task id intact. Nothing here talks to a parent or
//! a child: what is to be sent is appended to an outbox. Times are nanoseconds on
//! one clock.
use std::collections::VecDeque;

use vstd::prelude::*;
use vstd::string::*;

use crate::control::{ControlAction, KillMode};
use crate::job::{about, copy_bytes, AgentEvent};
use crate::observability::{join_label, joined_label, Event, EventModel, NodeState};
use crate::protocol::{FromAgent, FromAgentModel, TaskId, ToAgent, ToAgentModel};
use crate::text::{find_char, from_chars, same, texts, to_chars};

verus! {

/// What the relay asks its surroundings to do.
#[derive(Debug, Clone, PartialEq, Eq)]
pub enum RelayAction {
    /// Send a message down to a child.
    ToChild {
        /// The child.
        child: usize,
        /// The message.
        message: ToAgent,
    },
    /// Send a message up to the parent.
    ToParent(FromAgent),
    /// Report an event of this subtree to the parent.
    Report(Event),
    /// Stop listening to a child that was given up.
    Abandon {
        /// The child.
        child: usize,
    },
}

/// A [`RelayAction`] as a mathematical value.
pub enum RelayActionModel {
    ToChild { child: usize, message: ToAgentModel },
    ToParent { reply: FromAgentModel },
    Report { event: EventModel },
    Abandon { child: usize },
}

impl View for RelayAction {
    type V = RelayActionModel;

    open spec fn view(&self) -> RelayActionModel {
        match *self {
            RelayAction::ToChild { child, message } => RelayActionModel::ToChild {
                child,
                message: message@,
            },
            RelayAction::ToParent(message) => RelayActionModel::ToParent { reply: message@ },
            RelayAction::Report(event) => RelayActionModel::Report { event: event@ },
            RelayAction::Abandon { child } => RelayActionModel::Abandon { child },
        }
    }
}

/// Each action in turn as a mathematical value.
pub open spec fn relay_actions(v: Seq<RelayAction>) -> Seq<RelayActionModel> {
    Seq::new(v.len(), |i: int| v[i]@)
}

/// A task waiting for a free child.
#[derive(Debug)]
pub struct Waiting {
    /// The task.
    pub task: TaskId,
    /// Its serialized input.
    pub payload: Vec<u8>,
}

/// A task a child is running, with its input kept so it can be run again.
#[derive(Debug)]
pub struct Flight {
    /// The task.
    pub task: TaskId,
    /// The child running it.
    pub child: usize,
    /// Its serialized input.
    pub payload: Vec<u8>,
}

/// A [`Waiting`] as a mathematical value.
pub struct WaitingModel {
    pub task: TaskId,
    pub payload: Seq<u8>,
}

/// A [`Flight`] as a mathematical value.
pub struct FlightModel {
    pub task: TaskId,
    pub child: usize,
    pub payload: Seq<u8>,
}

impl View for Waiting {
    type V = WaitingModel;

    open spec fn view(&self) -> WaitingModel {
        WaitingModel { task: self.task, payload: self.payload@ }
    }
}

impl View for Flight {
    type V = FlightModel;

    open spec fn view(&self) -> FlightModel {
        FlightModel { task: self.task, child: self.child, payload: self.payload@ }
    }
}

/// Each waiting task in turn as a mathematical value.
pub open spec fn waitings(v: Seq<Waiting>) -> Seq<WaitingModel> {
    Seq::new(v.len(), |i: int| v[i]@)
}

/// Each running task in turn as a mathematical value.
pub open spec fn flights(v: Seq<Flight>) -> Seq<FlightModel> {
    Seq::new(v.len(), |i: int| v[i]@)
}

/// Why a relay stopped with an error.
#[derive(Debug)]
pub enum RelayError {
    /// The parent sent a handshake message on the live channel.
    UnexpectedFromParent(ToAgent),
    /// A child sent a handshake message on the live channel.
    RepeatedHandshake,
    /// The parent answered the announcement with something other than the children
    /// to activate.
    ExpectedActivate(ToAgent),
}

/// A relay's child-side scheduling state.
#[derive(Debug)]
pub struct Relay {
    /// Each child's label.
    pub labels: Vec<String>,
    /// How many tasks each child can hold.
    pub capacity: Vec<usize>,
    /// Whether each child is in the active set; a standby takes no tasks.
    pub active: Vec<bool>,
    /// Whether each child is still up.
    pub alive: Vec<bool>,
    /// Whether each child is paused by an operator.
    pub paused: Vec<bool>,
    /// Whether each child is to be dropped once its tasks have finished.
    pub draining: Vec<bool>,
    /// How many tasks each child is running.
    pub load: Vec<usize>,
    /// When each child was last heard from.
    pub last_activity: Vec<u64>,
    /// Tasks waiting for a free child slot.
    pub pending: VecDeque<Waiting>,
    /// Tasks the children are running, in the order they were handed out.
    pub inflight: Vec<Flight>,
    /// What is to be sent, in order.
    pub out: Vec<RelayAction>,
}

/// A [`Relay`] as a mathematical value.
pub struct RelayModel {
    pub labels: Seq<Seq<char>>,
    pub capacity: Seq<usize>,
    pub active: Seq<bool>,
    pub alive: Seq<bool>,
    pub paused: Seq<bool>,
    pub draining: Seq<bool>,
    pub load: Seq<usize>,
    pub last_activity: Seq<u64>,
    pub pending: Seq<WaitingModel>,
    pub inflight: Seq<FlightModel>,
    pub out: Seq<RelayActionModel>,
}

impl View for Relay {
    type V = RelayModel;

    open spec fn view(&self) -> RelayModel {
        RelayModel {
            labels: texts(self.labels@),
            capacity: self.capacity@,
            active: self.active@,
            alive: self.alive@,
            paused: self.paused@,
            draining: self.draining@,
            load: self.load@,
            last_activity: self.last_activity@,
            pending: waitings(self.pending@),
            inflight: flights(self.inflight@),
            out: relay_actions(self.out@),
        }
    }
}

/// The sum of the first `n` capacities.
pub open spec fn total_below(capacity: Seq<usize>, n: int) -> nat
    decreases n,
{
    if n <= 0 {
        0
    } else {
        total_below(capacity, n - 1) + capacity[n - 1] as nat
    }
}

/// The sum of the capacities of the active children among the first `n`.
pub open spec fn active_below(capacity: Seq<usize>, active: Seq<bool>, n: int) -> nat
    decreases n,
{
    if n <= 0 {
        0
    } else {
        active_below(capacity, active, n - 1) + (if active[n - 1] {
            capacity[n - 1] as nat
        } else {
            0
        })
    }
}

/// How many of the running tasks `child` is running.
pub open spec fn runs(inflight: Seq<FlightModel>, child: usize) -> nat
    decreases inflight.len(),
{
    if inflight.len() == 0 {
        0
    } else {
        runs(inflight.drop_last(), child) + (if inflight.last().child == child {
            1nat
        } else {
            0nat
        })
    }
}

/// The running tasks other than `task`, in order.
pub open spec fn without_task(inflight: Seq<FlightModel>, task: TaskId) -> Seq<FlightModel>
    decreases inflight.len(),
{
    if inflight.len() == 0 {
        inflight
    } else {
        let rest = without_task(inflight.drop_last(), task);
        if inflight.last().task == task {
            rest
        } else {
            rest.push(inflight.last())
        }
    }
}

/// The running tasks of children other than `child`, in order.
pub open spec fn without_child(inflight: Seq<FlightModel>, child: usize) -> Seq<FlightModel>
    decreases inflight.len(),
{
    if inflight.len() == 0 {
        inflight
    } else {
        let rest = without_child(inflight.drop_last(), child);
        if inflight.last().child == child {
            rest
        } else {
            rest.push(inflight.last())
        }
    }
}

/// The tasks `child` is running, in order, as waiting tasks.
pub open spec fn orphans(inflight: Seq<FlightModel>, child: usize) -> Seq<WaitingModel>
    decreases inflight.len(),
{
    if inflight.len() == 0 {
        Seq::empty()
    } else {
        let rest = orphans(inflight.drop_last(), child);
        if inflight.last().child == child {
            rest.push(
                WaitingModel { task: inflight.last().task, payload: inflight.last().payload },
            )
        } else {
            rest
        }
    }
}

/// The child running `task`, if any is.
pub open spec fn owner_of(inflight: Seq<FlightModel>, task: TaskId) -> Option<usize>
    decreases inflight.len(),
{
    if inflight.len() == 0 {
        None
    } else if inflight.last().task == task {
        Some(inflight.last().child)
    } else {
        owner_of(inflight.drop_last(), task)
    }
}

/// Whether `task` is among the waiting tasks.
pub open spec fn queued(pending: Seq<WaitingModel>, task: TaskId) -> bool {
    exists|i: int| 0 <= i < pending.len() && (#[trigger] pending[i]).task == task
}

/// Whether `child` is running `task`.
pub open spec fn run_by(inflight: Seq<FlightModel>, child: usize, task: TaskId) -> bool {
    exists|i: int|
        0 <= i < inflight.len() && (#[trigger] inflight[i]).task == task && inflight[i].child
            == child
}

/// The first position at or after `from` that holds `name`, or the length.
pub open spec fn position_from(labels: Seq<Seq<char>>, name: Seq<char>, from: int) -> int
    decreases labels.len() - from,
{
    if from < 0 || from >= labels.len() || labels[from] == name {
        from
    } else {
        position_from(labels, name, from + 1)
    }
}

/// A path split at its first `/`: the label of the next hop, and the path below it
/// if there is more.
pub open spec fn split_head(path: Seq<char>) -> (Seq<char>, Option<Seq<char>>)
    decreases path.len(),
{
    if path.len() == 0 {
        (path, None)
    } else if path[0] == '/' {
        (Seq::empty(), Some(path.drop_first()))
    } else {
        let (head, rest) = split_head(path.drop_first());
        (seq![path[0]] + head, rest)
    }
}

proof fn lemma_split_head(path: Seq<char>, at: int)
    requires
        0 <= at <= path.len(),
        at < path.len() ==> path[at] == '/',
        forall|j: int| 0 <= j < at ==> path[j] != '/',
    ensures
        split_head(path).0 == path.take(at),
        split_head(path).1 == (if at < path.len() {
            Some(path.skip(at + 1))
        } else {
            None
        }),
    decreases path.len(),
{
    if path.len() == 0 {
        assert(path.take(at) =~= path);
    } else if at == 0 {
        assert(path.take(0) =~= Seq::empty());
        assert(path.drop_first() =~= path.skip(1));
    } else {
        let rest = path.drop_first();
        lemma_split_head(rest, at - 1);
        assert(path.take(at) =~= seq![path[0]] + rest.take(at - 1));
        if at < path.len() {
            assert(rest.skip(at) =~= path.skip(at + 1));
        }
    }
}

/// Routing undoes naming: the path of a node below a child splits into the
/// child's label and the node's path from there.
pub proof fn law_routing_undoes_joining(label: Seq<char>, rest: Seq<char>)
    requires
        !label.contains('/'),
    ensures
        split_head(joined_label(label, rest)) == (label, if rest.len() == 0 {
            None
        } else {
            Some(rest)
        }),
{
    reveal_strlit("/");
    let path = joined_label(label, rest);
    let at = label.len() as int;
    assert forall|j: int| 0 <= j < at implies path[j] != '/' by {
        assert(path[j] == label[j]);
        assert(label.contains(label[j]));
    }
    lemma_split_head(path, at);
    assert(path.take(at) =~= label);
    if rest.len() > 0 {
        assert(path.skip(at + 1) =~= rest);
    }
}

impl RelayModel {
    /// How many children the relay knows, lost ones among them.
    pub open spec fn children(self) -> nat {
        self.labels.len()
    }

    /// What holds of a relay between any two inputs: the per-child sequences agree
    /// in length, no task runs twice, no child runs more than its load says, a lost
    /// child runs nothing, and the capacities add up to a machine integer.
    pub open spec fn wf(self) -> bool {
        &&& self.capacity.len() == self.children()
        &&& self.active.len() == self.children()
        &&& self.alive.len() == self.children()
        &&& self.paused.len() == self.children()
        &&& self.draining.len() == self.children()
        &&& self.load.len() == self.children()
        &&& self.last_activity.len() == self.children()
        &&& self.children() <= usize::MAX
        &&& total_below(self.capacity, self.children() as int) <= usize::MAX
        &&& forall|i: int, j: int|
            0 <= i < j < self.inflight.len() ==> (#[trigger] self.inflight[i]).task != (
            #[trigger] self.inflight[j]).task
        &&& forall|i: int|
            0 <= i < self.inflight.len() ==> (#[trigger] self.inflight[i]).child < self.children()
        &&& forall|c: int|
            0 <= c < self.children() ==> runs(self.inflight, c as usize) <= #[trigger] self.load[c]
        &&& forall|c: int|
            0 <= c < self.children() && !(#[trigger] self.alive[c]) ==> self.load[c] == 0
    }

    /// The relay after an action is appended to the outbox.
    pub open spec fn doing(self, action: RelayActionModel) -> RelayModel {
        RelayModel { out: self.out.push(action), ..self }
    }

    /// The relay after a node-state report about `child`.
    pub open spec fn reporting(self, child: usize, state: NodeState) -> RelayModel {
        self.doing(
            RelayActionModel::Report {
                event: EventModel::Node { host: self.labels[child as int], state },
            },
        )
    }

    /// The slots of the active children.
    pub open spec fn slots(self) -> nat {
        active_below(self.capacity, self.active, self.children() as int)
    }

    /// The relay after it tells its parent how many slots it has.
    pub open spec fn advertising(self) -> RelayModel {
        self.doing(
            RelayActionModel::ToParent {
                reply: FromAgentModel::Capacity { slots: self.slots() as usize },
            },
        )
    }

    /// Whether child `c` may be handed a task now.
    pub open spec fn free(self, c: int) -> bool {
        &&& self.active[c]
        &&& self.alive[c]
        &&& !self.paused[c]
        &&& !self.draining[c]
        &&& self.load[c] < self.capacity[c]
    }

    /// The first free child at or after `c`, or the number of children.
    pub open spec fn first_free(self, c: int) -> int
        decreases self.children() - c,
    {
        if c < 0 || c >= self.children() || self.free(c) {
            c
        } else {
            self.first_free(c + 1)
        }
    }

    /// The relay after its first waiting task is handed to `child`. A child going
    /// from idle to busy is reported working.
    pub open spec fn handed(self, child: usize) -> RelayModel {
        let first = self.pending[0];
        let next = RelayModel {
            pending: self.pending.drop_first(),
            load: self.load.update(child as int, (self.load[child as int] + 1) as usize),
            inflight: without_task(self.inflight, first.task).push(
                FlightModel { task: first.task, child, payload: first.payload },
            ),
            ..self
        }.doing(
            RelayActionModel::ToChild {
                child,
                message: ToAgentModel::Assign { task_id: first.task, payload: first.payload },
            },
        );
        if self.load[child as int] == 0 {
            next.reporting(child, NodeState::Working)
        } else {
            next
        }
    }

    /// The relay after waiting tasks are handed to the first free children until no
    /// task or no free slot is left.
    pub open spec fn dispatched(self) -> RelayModel
        decreases self.pending.len(),
    {
        if self.pending.len() == 0 || self.first_free(0) >= self.children() {
            self
        } else {
            self.handed(self.first_free(0) as usize).dispatched()
        }
    }

    /// The relay after the slot of `task` is freed.
    pub open spec fn released(self, task: TaskId) -> RelayModel {
        let child = owner_of(self.inflight, task)->0;
        RelayModel {
            inflight: without_task(self.inflight, task),
            load: self.load.update(child as int, (self.load[child as int] - 1) as usize),
            ..self
        }
    }

    /// The relay after `child` is lost: its tasks wait again, before all others.
    pub open spec fn lost(self, child: usize) -> RelayModel {
        RelayModel {
            alive: self.alive.update(child as int, false),
            pending: orphans(self.inflight, child) + self.pending,
            inflight: without_child(self.inflight, child),
            load: self.load.update(child as int, 0),
            ..self
        }.reporting(child, NodeState::Lost)
    }

    /// Whether any child is still up.
    pub open spec fn any_alive(self) -> bool {
        exists|c: int| 0 <= c < self.children() && #[trigger] self.alive[c]
    }

    /// The relay after `child` is shut down and taken as lost.
    pub open spec fn killed(self, child: usize) -> RelayModel {
        self.doing(
            RelayActionModel::ToChild { child, message: ToAgentModel::Shutdown },
        ).lost(child).dispatched()
    }

    /// The relay after `child` is killed, and whether the subtree is still alive. A
    /// child already lost is left alone.
    pub open spec fn after_kill(self, child: usize) -> (RelayModel, bool) {
        if self.alive[child as int] {
            (self.killed(child), self.killed(child).any_alive())
        } else {
            (self, true)
        }
    }

    /// The relay after `child` finished its last task: a draining child is killed,
    /// a paused one keeps showing so, any other is reported idle.
    pub open spec fn after_idle(self, child: usize) -> (RelayModel, bool) {
        if self.draining[child as int] {
            self.after_kill(child)
        } else if !self.paused[child as int] {
            (self.reporting(child, NodeState::Idle), true)
        } else {
            (self, true)
        }
    }

    /// The relay after an operator's `action` on its own child `child`.
    pub open spec fn after_action(self, child: usize, action: ControlAction) -> (RelayModel, bool) {
        let c = child as int;
        match action {
            ControlAction::Pause => if !self.paused[c] && !self.draining[c] {
                (
                    (RelayModel { paused: self.paused.update(c, true), ..self }).reporting(
                        child,
                        NodeState::Paused,
                    ),
                    true,
                )
            } else {
                (self, true)
            },
            ControlAction::Resume => if self.paused[c] {
                let next = (RelayModel {
                    paused: self.paused.update(c, false),
                    ..self
                }).dispatched();
                (
                    next.reporting(
                        child,
                        if next.load[c] > 0 {
                            NodeState::Working
                        } else {
                            NodeState::Idle
                        },
                    ),
                    true,
                )
            } else {
                (self, true)
            },
            ControlAction::Kill { mode: KillMode::Now } => self.after_kill(child),
            ControlAction::Kill { mode: KillMode::AfterCurrent } => if self.load[c] == 0 {
                self.after_kill(child)
            } else if !self.draining[c] {
                (
                    (RelayModel { draining: self.draining.update(c, true), ..self }).reporting(
                        child,
                        NodeState::Draining,
                    ),
                    true,
                )
            } else {
                (self, true)
            },
        }
    }

    /// The relay after an operator control addressed to `target`: applied here if
    /// the path ends at a child, else passed one hop further down. An unknown or
    /// lost child is ignored.
    pub open spec fn after_control(self, target: Seq<char>, action: ControlAction) -> (
        RelayModel,
        bool,
    ) {
        let (head, rest) = split_head(target);
        let at = position_from(self.labels, head, 0);
        if at >= self.children() || !self.alive[at] {
            (self, true)
        } else {
            match rest {
                Some(below) => (
                    self.doing(
                        RelayActionModel::ToChild {
                            child: at as usize,
                            message: ToAgentModel::Control { target: below, action },
                        },
                    ),
                    true,
                ),
                None => self.after_action(at as usize, action),
            }
        }
    }

    /// The relay after a child reports that `task` is over by `message`, which
    /// already names the whole path; a task that is not running is not forwarded.
    pub open spec fn after_terminal(self, task: TaskId, message: FromAgentModel) -> (
        RelayModel,
        bool,
    ) {
        match owner_of(self.inflight, task) {
            None => (self, true),
            Some(child) => {
                let next = self.released(task).doing(
                    RelayActionModel::ToParent { reply: message },
                ).dispatched();
                if next.load[child as int] == 0 {
                    next.after_idle(child)
                } else {
                    (next, true)
                }
            },
        }
    }

    /// The path of the leaf that ran `task`, seen from here.
    pub open spec fn full_via(self, task: TaskId, via: Seq<char>) -> Seq<char> {
        joined_label(self.labels[owner_of(self.inflight, task)->0 as int], via)
    }

    /// The relay with the time of `event` noted: any message is proof of life.
    pub open spec fn heard(self, event: AgentEvent, now: u64) -> RelayModel {
        match event {
            AgentEvent::Lost(_) => self,
            AgentEvent::Message(child, _) => RelayModel {
                last_activity: self.last_activity.update(child as int, now),
                ..self
            },
        }
    }

    /// The relay after an event from a child, and whether the subtree is still
    /// alive; or the reason it stops.
    pub open spec fn after_child(self, event: AgentEvent, now: u64) -> Result<
        (RelayModel, bool),
        RelayError,
    > {
        match event {
            AgentEvent::Lost(child) => {
                let next = self.lost(child).dispatched();
                Ok((next, next.any_alive()))
            },
            AgentEvent::Message(child, message) => {
                let heard = self.heard(event, now);
                match message {
                    FromAgent::Started { task_id } => Ok(
                        (
                            heard.doing(
                                RelayActionModel::ToParent {
                                    reply: FromAgentModel::Started { task_id },
                                },
                            ),
                            true,
                        ),
                    ),
                    FromAgent::Completed { task_id, output, via } => Ok(
                        heard.after_terminal(
                            task_id,
                            FromAgentModel::Completed {
                                task_id,
                                output: output@,
                                via: self.full_via(task_id, via@),
                            },
                        ),
                    ),
                    FromAgent::Failed { task_id, error, via } => Ok(
                        heard.after_terminal(
                            task_id,
                            FromAgentModel::Failed {
                                task_id,
                                error: error@,
                                via: self.full_via(task_id, via@),
                            },
                        ),
                    ),
                    FromAgent::Observe(observed) => Ok(
                        (
                            heard.doing(
                                RelayActionModel::ToParent {
                                    reply: FromAgentModel::Observe {
                                        event: observed@.prefixed(self.labels[child as int]),
                                    },
                                },
                            ),
                            true,
                        ),
                    ),
                    FromAgent::Capacity { slots } => Ok(
                        (
                            (RelayModel {
                                capacity: self.capacity.update(child as int, slots),
                                ..heard
                            }).advertising().dispatched(),
                            true,
                        ),
                    ),
                    FromAgent::Pong => Ok((heard, true)),
                    FromAgent::Ready { .. } => Err(RelayError::RepeatedHandshake),
                    FromAgent::Discovered { .. } => Err(RelayError::RepeatedHandshake),
                }
            },
        }
    }

    /// The tasks the relay answers for, waiting or running.
    pub open spec fn holds_task(self, task: TaskId) -> bool {
        queued(self.pending, task) || owner_of(self.inflight, task) is Some
    }
}


proof fn lemma_owner(inflight: Seq<FlightModel>, task: TaskId)
    ensures
        owner_of(inflight, task) is Some <==> exists|i: int|
            0 <= i < inflight.len() && (#[trigger] inflight[i]).task == task,
        owner_of(inflight, task) matches Some(c) ==> exists|i: int|
            0 <= i < inflight.len() && (#[trigger] inflight[i]).task == task && inflight[i].child
                == c,
    decreases inflight.len(),
{
    if inflight.len() > 0 {
        let rest = inflight.drop_last();
        lemma_owner(rest, task);
        let last = inflight.len() - 1;
        if inflight[last].task == task {
            assert(inflight[last].child == inflight.last().child);
        } else {
            if owner_of(rest, task) is Some {
                let i = choose|i: int|
                    0 <= i < rest.len() && (#[trigger] rest[i]).task == task && rest[i].child
                        == owner_of(rest, task)->0;
                assert(inflight[i] == rest[i]);
            }
            if exists|i: int| 0 <= i < inflight.len() && (#[trigger] inflight[i]).task == task {
                let i = choose|i: int|
                    0 <= i < inflight.len() && (#[trigger] inflight[i]).task == task;
                assert(rest[i].task == task);
            }
        }
    }
}

/// What removing a task leaves.
proof fn lemma_without_task(inflight: Seq<FlightModel>, task: TaskId)
    ensures
        without_task(inflight, task).len() <= inflight.len(),
        forall|f: FlightModel| #[trigger]
            without_task(inflight, task).contains(f) <==> inflight.contains(f) && f.task != task,
        forall|c: usize| #[trigger] runs(without_task(inflight, task), c) <= runs(inflight, c),
        (forall|i: int, j: int|
            0 <= i < j < inflight.len() ==> (#[trigger] inflight[i]).task != (
            #[trigger] inflight[j]).task) ==> {
            &&& forall|i: int, j: int|
                0 <= i < j < without_task(inflight, task).len() ==> (#[trigger] without_task(
                    inflight,
                    task,
                )[i]).task != (#[trigger] without_task(inflight, task)[j]).task
            &&& forall|c: usize| #[trigger]
                runs(without_task(inflight, task), c) == runs(inflight, c) - (if owner_of(
                    inflight,
                    task,
                ) == Some(c) {
                    1int
                } else {
                    0int
                })
        },
    decreases inflight.len(),
{
    if inflight.len() > 0 {
        let rest = inflight.drop_last();
        let last = inflight.last();
        let kept = without_task(rest, task);
        lemma_without_task(rest, task);
        let all = without_task(inflight, task);
        assert(inflight =~= rest.push(last));
        if last.task != task {
            assert(all == kept.push(last));
            assert forall|c: usize| #[trigger] runs(all, c) <= runs(inflight, c) by {
                assert(all.drop_last() =~= kept);
                assert(runs(kept, c) <= runs(rest, c));
            }
        } else {
            assert forall|c: usize| #[trigger] runs(all, c) <= runs(inflight, c) by {
                assert(runs(kept, c) <= runs(rest, c));
            }
        }
        assert forall|f: FlightModel| #[trigger] all.contains(f) <==> inflight.contains(f)
            && f.task != task by {
            assert(inflight.contains(f) <==> rest.contains(f) || f == last) by {
                if rest.contains(f) {
                    assert(inflight[rest.index_of(f)] == f);
                }
                if f == last {
                    assert(inflight[inflight.len() - 1] == f);
                }
                if inflight.contains(f) && f != last {
                    assert(rest[inflight.index_of(f)] == f);
                }
            }
            if last.task != task {
                assert(all.contains(f) <==> kept.contains(f) || f == last) by {
                    if kept.contains(f) {
                        assert(all[kept.index_of(f)] == f);
                    }
                    if f == last {
                        assert(all[kept.len() as int] == f);
                    }
                    if all.contains(f) && f != last {
                        assert(kept[all.index_of(f)] == f);
                    }
                }
            }
        }
        if forall|i: int, j: int|
            0 <= i < j < inflight.len() ==> (#[trigger] inflight[i]).task != (
            #[trigger] inflight[j]).task {
            assert forall|i: int, j: int| 0 <= i < j < rest.len() implies (#[trigger] rest[i]).task
                != (#[trigger] rest[j]).task by {
                assert(inflight[i].task != inflight[j].task);
            }
            assert forall|i: int, j: int| 0 <= i < j < all.len() implies (#[trigger] all[i]).task
                != (#[trigger] all[j]).task by {
                if last.task != task && j == kept.len() {
                    assert(kept.contains(kept[i]));
                    let k = rest.index_of(kept[i]);
                    assert(rest.contains(kept[i]));
                    assert(inflight[k].task != inflight[inflight.len() - 1].task);
                } else {
                    assert(all[i] == kept[i] && all[j] == kept[j]);
                }
            }
            lemma_owner(rest, task);
            assert forall|c: usize| #[trigger] runs(all, c) == runs(inflight, c) - (if owner_of(
                inflight,
                task,
            ) == Some(c) {
                1int
            } else {
                0int
            }) by {
                assert(runs(kept, c) == runs(rest, c) - (if owner_of(rest, task) == Some(c) {
                    1int
                } else {
                    0int
                }));
                if last.task == task {
                    if owner_of(rest, task) is Some {
                        let i = choose|i: int|
                            0 <= i < rest.len() && (#[trigger] rest[i]).task == task;
                        assert(inflight[i].task != inflight[inflight.len() - 1].task);
                    }
                } else {
                    assert(all.drop_last() =~= kept);
                }
            }
        }
    }
}

/// What removing a child's tasks leaves.
proof fn lemma_without_child(inflight: Seq<FlightModel>, child: usize)
    ensures
        forall|f: FlightModel| #[trigger]
            without_child(inflight, child).contains(f) <==> inflight.contains(f) && f.child
                != child,
        forall|c: usize| #[trigger]
            runs(without_child(inflight, child), c) == (if c == child {
                0
            } else {
                runs(inflight, c)
            }),
        (forall|i: int, j: int|
            0 <= i < j < inflight.len() ==> (#[trigger] inflight[i]).task != (
            #[trigger] inflight[j]).task) ==> forall|i: int, j: int|
            0 <= i < j < without_child(inflight, child).len() ==> (#[trigger] without_child(
                inflight,
                child,
            )[i]).task != (#[trigger] without_child(inflight, child)[j]).task,
        forall|t: TaskId| #[trigger]
            queued(orphans(inflight, child), t) <==> run_by(inflight, child, t),
    decreases inflight.len(),
{
    if inflight.len() > 0 {
        let rest = inflight.drop_last();
        let last = inflight.last();
        let kept = without_child(rest, child);
        lemma_without_child(rest, child);
        let all = without_child(inflight, child);
        assert(inflight =~= rest.push(last));
        assert forall|f: FlightModel| #[trigger] all.contains(f) <==> inflight.contains(f)
            && f.child != child by {
            assert(inflight.contains(f) <==> rest.contains(f) || f == last) by {
                if rest.contains(f) {
                    assert(inflight[rest.index_of(f)] == f);
                }
                if f == last {
                    assert(inflight[inflight.len() - 1] == f);
                }
                if inflight.contains(f) && f != last {
                    assert(rest[inflight.index_of(f)] == f);
                }
            }
            if last.child != child {
                assert(all.contains(f) <==> kept.contains(f) || f == last) by {
                    if kept.contains(f) {
                        assert(all[kept.index_of(f)] == f);
                    }
                    if f == last {
                        assert(all[kept.len() as int] == f);
                    }
                    if all.contains(f) && f != last {
                        assert(kept[all.index_of(f)] == f);
                    }
                }
            }
        }
        assert forall|c: usize| #[trigger] runs(all, c) == (if c == child {
            0
        } else {
            runs(inflight, c)
        }) by {
            assert(runs(kept, c) == (if c == child {
                0
            } else {
                runs(rest, c)
            }));
            if last.child != child {
                assert(all.drop_last() =~= kept);
            }
        }
        if forall|i: int, j: int|
            0 <= i < j < inflight.len() ==> (#[trigger] inflight[i]).task != (
            #[trigger] inflight[j]).task {
            assert forall|i: int, j: int| 0 <= i < j < rest.len() implies (#[trigger] rest[i]).task
                != (#[trigger] rest[j]).task by {
                assert(inflight[i].task != inflight[j].task);
            }
            assert forall|i: int, j: int| 0 <= i < j < all.len() implies (#[trigger] all[i]).task
                != (#[trigger] all[j]).task by {
                if last.child != child && j == kept.len() {
                    assert(kept.contains(kept[i]));
                    let k = rest.index_of(kept[i]);
                    assert(rest.contains(kept[i]));
                    assert(inflight[k].task != inflight[inflight.len() - 1].task);
                } else {
                    assert(all[i] == kept[i] && all[j] == kept[j]);
                }
            }
        }
        let o = orphans(inflight, child);
        let p = orphans(rest, child);
        assert forall|t: TaskId| #[trigger] queued(o, t) <==> run_by(inflight, child, t) by {
            assert(queued(p, t) <==> run_by(rest, child, t));
            if exists|i: int| 0 <= i < o.len() && (#[trigger] o[i]).task == t {
                let i = choose|i: int| 0 <= i < o.len() && (#[trigger] o[i]).task == t;
                if i < p.len() {
                    assert(p[i].task == t);
                    let k = choose|k: int|
                        0 <= k < rest.len() && (#[trigger] rest[k]).task == t && rest[k].child
                            == child;
                    assert(inflight[k] == rest[k]);
                } else {
                    assert(inflight[inflight.len() - 1].task == t);
                }
            }
            if exists|i: int|
                0 <= i < inflight.len() && (#[trigger] inflight[i]).task == t && inflight[i].child
                    == child {
                let i = choose|i: int|
                    0 <= i < inflight.len() && (#[trigger] inflight[i]).task == t
                        && inflight[i].child == child;
                if i < rest.len() {
                    assert(rest[i].task == t);
                    let k = choose|k: int| 0 <= k < p.len() && (#[trigger] p[k]).task == t;
                    assert(o[k] == p[k]);
                } else {
                    assert(o[p.len() as int].task == t);
                }
            }
        }
    }
}

impl RelayModel {
    proof fn lemma_first_free(self, c: int)
        requires
            0 <= c <= self.children(),
        ensures
            c <= self.first_free(c) <= self.children(),
            self.first_free(c) < self.children() ==> self.free(self.first_free(c)),
            forall|d: int| c <= d < self.first_free(c) ==> !self.free(d),
        decreases self.children() - c,
    {
        if c < self.children() && !self.free(c) {
            self.lemma_first_free(c + 1);
        }
    }

    proof fn lemma_handed_wf(self, child: usize)
        requires
            self.wf(),
            self.pending.len() > 0,
            child < self.children(),
            self.free(child as int),
        ensures
            self.handed(child).wf(),
    {
        let next = self.handed(child);
        let first = self.pending[0];
        let kept = without_task(self.inflight, first.task);
        lemma_without_task(self.inflight, first.task);
        let flight = FlightModel { task: first.task, child, payload: first.payload };
        assert(next.inflight == kept.push(flight));
        assert forall|i: int, j: int| 0 <= i < j < next.inflight.len() implies (
        #[trigger] next.inflight[i]).task != (#[trigger] next.inflight[j]).task by {
            if j == kept.len() {
                assert(kept.contains(kept[i]));
            } else {
                assert(kept[i].task != kept[j].task);
            }
        }
        assert forall|i: int| 0 <= i < next.inflight.len() implies (
        #[trigger] next.inflight[i]).child < next.children() by {
            if i < kept.len() {
                assert(kept.contains(kept[i]));
                let k = self.inflight.index_of(kept[i]);
                assert(self.inflight.contains(kept[i]));
                assert(self.inflight[k].child < self.children());
            }
        }
        assert forall|c: int| 0 <= c < next.children() implies runs(next.inflight, c as usize)
            <= #[trigger] next.load[c] by {
            assert(next.inflight.drop_last() =~= kept);
            assert(runs(kept, c as usize) <= runs(self.inflight, c as usize));
            assert(runs(self.inflight, c as usize) <= self.load[c]);
        }
        assert forall|c: int| 0 <= c < next.children() && !(#[trigger] next.alive[c]) implies next.load[c]
            == 0 by {
            assert(!self.alive[c]);
        }
    }

    /// Dispatching keeps the invariant and touches nothing but what is handed out.
    pub proof fn lemma_dispatched_wf(self)
        requires
            self.wf(),
        ensures
            self.dispatched().wf(),
            self.dispatched().labels == self.labels,
            self.dispatched().capacity == self.capacity,
            self.dispatched().active == self.active,
            self.dispatched().alive == self.alive,
            self.dispatched().paused == self.paused,
            self.dispatched().draining == self.draining,
            self.dispatched().last_activity == self.last_activity,
        decreases self.pending.len(),
    {
        self.lemma_first_free(0);
        if self.pending.len() > 0 && self.first_free(0) < self.children() {
            let c = self.first_free(0) as usize;
            self.lemma_handed_wf(c);
            self.handed(c).lemma_dispatched_wf();
        }
    }

    pub(crate) proof fn lemma_freed_wf(self, task: TaskId)
        requires
            self.wf(),
            owner_of(self.inflight, task) is Some,
        ensures
            self.released(task).wf(),
            owner_of(self.inflight, task)->0 < self.children(),
            self.load[owner_of(self.inflight, task)->0 as int] > 0,
    {
        let next = self.released(task);
        let child = owner_of(self.inflight, task)->0;
        lemma_owner(self.inflight, task);
        lemma_without_task(self.inflight, task);
        let i = choose|i: int|
            0 <= i < self.inflight.len() && (#[trigger] self.inflight[i]).task == task
                && self.inflight[i].child == child;
        assert(self.inflight[i].child < self.children());
        assert(runs(without_task(self.inflight, task), child) == runs(self.inflight, child) - 1);
        assert(runs(self.inflight, child) <= self.load[child as int]);
        assert forall|k: int| 0 <= k < next.inflight.len() implies (
        #[trigger] next.inflight[k]).child < next.children() by {
            let f = next.inflight[k];
            assert(next.inflight.contains(f));
            let m = self.inflight.index_of(f);
            assert(self.inflight.contains(f));
            assert(self.inflight[m].child < self.children());
        }
        assert forall|c: int| 0 <= c < next.children() implies runs(next.inflight, c as usize)
            <= #[trigger] next.load[c] by {
            assert(runs(self.inflight, c as usize) <= self.load[c]);
            assert(runs(next.inflight, c as usize) == runs(self.inflight, c as usize) - (if child
                == c {
                1int
            } else {
                0int
            }));
        }
        assert forall|c: int| 0 <= c < next.children() && !(#[trigger] next.alive[c]) implies next.load[c]
            == 0 by {
            assert(!self.alive[c]);
        }
    }

    proof fn lemma_lost_wf(self, child: usize)
        requires
            self.wf(),
            child < self.children(),
        ensures
            self.lost(child).wf(),
    {
        let next = self.lost(child);
        lemma_without_child(self.inflight, child);
        assert forall|k: int| 0 <= k < next.inflight.len() implies (
        #[trigger] next.inflight[k]).child < next.children() by {
            let f = next.inflight[k];
            assert(next.inflight.contains(f));
            let m = self.inflight.index_of(f);
            assert(self.inflight.contains(f));
            assert(self.inflight[m].child < self.children());
        }
        assert forall|c: int| 0 <= c < next.children() implies runs(next.inflight, c as usize)
            <= #[trigger] next.load[c] by {
            assert(runs(self.inflight, c as usize) <= self.load[c]);
            assert(runs(next.inflight, c as usize) == (if c == child {
                0
            } else {
                runs(self.inflight, c as usize)
            }));
        }
        assert forall|c: int| 0 <= c < next.children() && !(#[trigger] next.alive[c]) implies next.load[c]
            == 0 by {
            if c != child {
                assert(!self.alive[c]);
            }
        }
    }

    proof fn lemma_killed_wf(self, child: usize)
        requires
            self.wf(),
            child < self.children(),
        ensures
            self.killed(child).wf(),
            self.killed(child).labels == self.labels,
    {
        let a = self.doing(RelayActionModel::ToChild { child, message: ToAgentModel::Shutdown });
        assert(a.wf());
        a.lemma_lost_wf(child);
        a.lost(child).lemma_dispatched_wf();
    }

    /// After dispatching, nothing waits or no child is free.
    pub proof fn law_dispatch_is_work_conserving(self)
        requires
            self.wf(),
        ensures
            self.dispatched().pending.len() == 0 || forall|c: int|
                0 <= c < self.children() ==> !(#[trigger] self.dispatched().free(c)),
        decreases self.pending.len(),
    {
        self.lemma_first_free(0);
        if self.pending.len() > 0 && self.first_free(0) < self.children() {
            let c = self.first_free(0) as usize;
            self.lemma_handed_wf(c);
            self.handed(c).law_dispatch_is_work_conserving();
            assert(self.dispatched() == self.handed(c).dispatched());
        } else {
            assert(self.dispatched() == self);
        }
    }

    /// A standby, lost, paused or draining child is handed nothing.
    pub proof fn law_dispatch_respects_the_operator(self, c: int)
        requires
            self.wf(),
            0 <= c < self.children(),
            !self.active[c] || !self.alive[c] || self.paused[c] || self.draining[c],
        ensures
            self.dispatched().load[c] == self.load[c],
            runs(self.dispatched().inflight, c as usize) <= runs(self.inflight, c as usize),
        decreases self.pending.len(),
    {
        self.lemma_first_free(0);
        if self.pending.len() > 0 && self.first_free(0) < self.children() {
            let f = self.first_free(0) as usize;
            self.lemma_handed_wf(f);
            let next = self.handed(f);
            next.law_dispatch_respects_the_operator(c);
            let kept = without_task(self.inflight, self.pending[0].task);
            lemma_without_task(self.inflight, self.pending[0].task);
            assert(next.inflight.drop_last() =~= kept);
            assert(runs(kept, c as usize) <= runs(self.inflight, c as usize));
        }
    }

    /// No child is filled beyond its capacity by dispatching.
    pub proof fn law_dispatch_keeps_within_capacity(self, c: int)
        requires
            self.wf(),
            0 <= c < self.children(),
            self.load[c] <= self.capacity[c],
        ensures
            self.dispatched().load[c] <= self.capacity[c],
        decreases self.pending.len(),
    {
        self.lemma_first_free(0);
        if self.pending.len() > 0 && self.first_free(0) < self.children() {
            let f = self.first_free(0) as usize;
            self.lemma_handed_wf(f);
            self.handed(f).law_dispatch_keeps_within_capacity(c);
        }
    }

    /// Dispatching neither drops a task nor makes one up.
    pub proof fn law_dispatch_keeps_every_task(self, task: TaskId)
        requires
            self.wf(),
        ensures
            self.dispatched().holds_task(task) <==> self.holds_task(task),
        decreases self.pending.len(),
    {
        self.lemma_first_free(0);
        if self.pending.len() > 0 && self.first_free(0) < self.children() {
            let c = self.first_free(0) as usize;
            self.lemma_handed_wf(c);
            let next = self.handed(c);
            next.law_dispatch_keeps_every_task(task);
            let first = self.pending[0];
            let kept = without_task(self.inflight, first.task);
            lemma_without_task(self.inflight, first.task);
            lemma_owner(self.inflight, task);
            lemma_owner(kept, task);
            assert(next.inflight.drop_last() =~= kept);
            assert(owner_of(next.inflight, task) is Some <==> first.task == task || owner_of(
                kept,
                task,
            ) is Some);
            if task != first.task {
                assert(owner_of(kept, task) is Some <==> owner_of(self.inflight, task) is Some) by {
                    if owner_of(kept, task) is Some {
                        let i = choose|i: int|
                            0 <= i < kept.len() && (#[trigger] kept[i]).task == task;
                        assert(kept.contains(kept[i]));
                        let k = self.inflight.index_of(kept[i]);
                        assert(self.inflight.contains(kept[i]));
                        assert(self.inflight[k].task == task);
                    }
                    if owner_of(self.inflight, task) is Some {
                        let i = choose|i: int|
                            0 <= i < self.inflight.len() && (#[trigger] self.inflight[i]).task
                                == task;
                        assert(self.inflight.contains(self.inflight[i]));
                        assert(kept.contains(self.inflight[i]));
                        let k = kept.index_of(self.inflight[i]);
                        assert(kept[k].task == task);
                    }
                }
            }
            let waits = exists|i: int|
                0 <= i < self.pending.len() && (#[trigger] self.pending[i]).task == task;
            let still = exists|i: int|
                0 <= i < next.pending.len() && (#[trigger] next.pending[i]).task == task;
            if waits {
                let i = choose|i: int|
                    0 <= i < self.pending.len() && (#[trigger] self.pending[i]).task == task;
                if i > 0 {
                    assert(next.pending[i - 1].task == task);
                }
            }
            if still {
                let i = choose|i: int|
                    0 <= i < next.pending.len() && (#[trigger] next.pending[i]).task == task;
                assert(self.pending[i + 1].task == task);
            }
        }
    }

    /// A lost child's tasks all wait again, and no other task is touched: nothing
    /// the relay answers for is lost with a child.
    pub proof fn law_a_lost_child_loses_no_task(self, child: usize, task: TaskId)
        requires
            self.wf(),
            child < self.children(),
        ensures
            self.lost(child).wf(),
            self.lost(child).holds_task(task) <==> self.holds_task(task),
            runs(self.lost(child).inflight, child) == 0,
            owner_of(self.inflight, task) == Some(child) ==> queued(
                orphans(self.inflight, child),
                task,
            ),
    {
        self.lemma_lost_wf(child);
        lemma_without_child(self.inflight, child);
        let next = self.lost(child);
        let o = orphans(self.inflight, child);
        let kept = next.inflight;
        lemma_owner(self.inflight, task);
        lemma_owner(kept, task);
        if exists|i: int| 0 <= i < o.len() && (#[trigger] o[i]).task == task {
            let i = choose|i: int| 0 <= i < o.len() && (#[trigger] o[i]).task == task;
            assert(next.pending[i] == o[i]);
        }
        if owner_of(self.inflight, task) is Some {
            let i = choose|i: int|
                0 <= i < self.inflight.len() && (#[trigger] self.inflight[i]).task == task
                    && self.inflight[i].child == owner_of(self.inflight, task)->0;
            let f = self.inflight[i];
            assert(self.inflight.contains(f));
            if f.child != child {
                assert(kept.contains(f));
                assert(kept[kept.index_of(f)].task == task);
            } else {
                assert(run_by(self.inflight, child, task));
                assert(queued(o, task));
                let k = choose|k: int| 0 <= k < o.len() && (#[trigger] o[k]).task == task;
                assert(next.pending[k] == o[k]);
            }
        }
        if owner_of(kept, task) is Some {
            let i = choose|i: int| 0 <= i < kept.len() && (#[trigger] kept[i]).task == task;
            assert(kept.contains(kept[i]));
            let k = self.inflight.index_of(kept[i]);
            assert(self.inflight.contains(kept[i]));
            assert(self.inflight[k].task == task);
        }
        if exists|i: int| 0 <= i < self.pending.len() && (#[trigger] self.pending[i]).task == task {
            let i = choose|i: int|
                0 <= i < self.pending.len() && (#[trigger] self.pending[i]).task == task;
            assert(next.pending[o.len() + i] == self.pending[i]);
        }
        if exists|i: int| 0 <= i < next.pending.len() && (#[trigger] next.pending[i]).task == task {
            let i = choose|i: int|
                0 <= i < next.pending.len() && (#[trigger] next.pending[i]).task == task;
            if i < o.len() {
                assert(o[i].task == task);
                assert(queued(o, task));
                assert(run_by(self.inflight, child, task));
            } else {
                assert(self.pending[i - o.len()].task == task);
            }
        }
    }
}


proof fn lemma_active_total(capacity: Seq<usize>, active: Seq<bool>, n: int)
    requires
        0 <= n <= capacity.len(),
        capacity.len() == active.len(),
    ensures
        active_below(capacity, active, n) <= total_below(capacity, n) <= total_below(
            capacity,
            capacity.len() as int,
        ),
    decreases capacity.len() - n,
{
    lemma_active_below_total(capacity, active, n);
    if n < capacity.len() {
        lemma_active_total(capacity, active, n + 1);
    }
}

proof fn lemma_active_below_total(capacity: Seq<usize>, active: Seq<bool>, n: int)
    requires
        0 <= n <= capacity.len(),
        capacity.len() == active.len(),
    ensures
        active_below(capacity, active, n) <= total_below(capacity, n),
    decreases n,
{
    if n > 0 {
        lemma_active_below_total(capacity, active, n - 1);
    }
}

proof fn lemma_total_same(a: Seq<usize>, b: Seq<usize>, n: int)
    requires
        0 <= n <= a.len(),
        n <= b.len(),
        forall|i: int| 0 <= i < n ==> a[i] == b[i],
    ensures
        total_below(a, n) == total_below(b, n),
    decreases n,
{
    if n > 0 {
        lemma_total_same(a, b, n - 1);
    }
}

/// The same vector with the flights of `task` left out.
fn drop_task(inflight: &mut Vec<Flight>, task: TaskId) -> (owner: Option<usize>)
    ensures
        flights(final(inflight)@) == without_task(flights(old(inflight)@), task),
        owner == owner_of(flights(old(inflight)@), task),
{
    let ghost all = flights(inflight@);
    let mut rest: Vec<Flight> = Vec::new();
    rest.append(inflight);
    let ghost items = rest@;
    let mut reversed: Vec<Flight> = Vec::new();
    while rest.len() > 0
        invariant
            rest@.len() + reversed@.len() == items.len(),
            rest@ == items.take(rest@.len() as int),
            forall|j: int|
                0 <= j < reversed@.len() ==> (#[trigger] reversed@[j]) == items[items.len() - 1 - j],
        decreases rest@.len(),
    {
        let f = rest.pop().unwrap();
        reversed.push(f);
        proof {
            assert(rest@ =~= items.take(rest@.len() as int));
        }
    }
    let ghost backwards = reversed@;
    let mut owner: Option<usize> = None;
    proof {
        assert(flights(items) =~= all);
        assert(flights(items.take(0)) =~= Seq::empty());
        assert(flights(inflight@) =~= Seq::empty());
    }
    while reversed.len() > 0
        invariant
            reversed@.len() <= items.len() == backwards.len(),
            reversed@ == backwards.take(reversed@.len() as int),
            forall|j: int|
                0 <= j < backwards.len() ==> (#[trigger] backwards[j]) == items[items.len() - 1
                    - j],
            flights(inflight@) == without_task(
                flights(items.take(items.len() - reversed@.len())),
                task,
            ),
            owner == owner_of(flights(items.take(items.len() - reversed@.len())), task),
        decreases reversed@.len(),
    {
        let ghost done = items.len() - reversed@.len();
        let ghost before = inflight@;
        let f = reversed.pop().unwrap();
        proof {
            assert(f == items[done]);
            assert(reversed@ =~= backwards.take(reversed@.len() as int));
            let next = flights(items.take(done + 1));
            assert(next.drop_last() =~= flights(items.take(done)));
            assert(next.last() == f@);
        }
        if f.task == task {
            owner = Some(f.child);
        } else {
            inflight.push(f);
            proof {
                assert(flights(inflight@) =~= flights(before).push(f@));
            }
        }
    }
    proof {
        assert(items.take(items.len() as int) =~= items);
    }
    owner
}

impl Relay {
    /// A relay over children that finished their handshake at `now`, none of them
    /// holding a task. All the per-child vectors are parallel to `labels`.
    pub fn new(labels: Vec<String>, capacity: Vec<usize>, active: Vec<bool>, now: u64) -> (r: Relay)
        requires
            capacity@.len() == labels@.len(),
            active@.len() == labels@.len(),
            total_below(capacity@, capacity@.len() as int) <= usize::MAX,
        ensures
            r@.wf(),
            r@ == (RelayModel {
                labels: texts(labels@),
                capacity: capacity@,
                active: active@,
                alive: Seq::new(labels@.len(), |c: int| true),
                paused: Seq::new(labels@.len(), |c: int| false),
                draining: Seq::new(labels@.len(), |c: int| false),
                load: Seq::new(labels@.len(), |c: int| 0usize),
                last_activity: Seq::new(labels@.len(), |c: int| now),
                pending: Seq::empty(),
                inflight: Seq::empty(),
                out: Seq::empty(),
            }),
    {
        let n: usize = labels.len();
        let mut alive: Vec<bool> = Vec::new();
        let mut paused: Vec<bool> = Vec::new();
        let mut draining: Vec<bool> = Vec::new();
        let mut load: Vec<usize> = Vec::new();
        let mut last_activity: Vec<u64> = Vec::new();
        let mut c: usize = 0;
        while c < n
            invariant
                c <= n,
                alive@ =~= Seq::new(c as nat, |i: int| true),
                paused@ =~= Seq::new(c as nat, |i: int| false),
                draining@ =~= Seq::new(c as nat, |i: int| false),
                load@ =~= Seq::new(c as nat, |i: int| 0usize),
                last_activity@ =~= Seq::new(c as nat, |i: int| now),
            decreases n - c,
        {
            alive.push(true);
            paused.push(false);
            draining.push(false);
            load.push(0);
            last_activity.push(now);
            c += 1;
        }
        let r = Relay {
            labels,
            capacity,
            active,
            alive,
            paused,
            draining,
            load,
            last_activity,
            pending: VecDeque::new(),
            inflight: Vec::new(),
            out: Vec::new(),
        };
        proof {
            assert(r@.pending =~= Seq::empty());
            assert(r@.inflight =~= Seq::empty());
            assert(r@.out =~= Seq::empty());
        }
        r
    }

    /// Ask for something to be done.
    pub(crate) fn ask(&mut self, action: RelayAction)
        ensures
            final(self)@ == old(self)@.doing(action@),
    {
        self.out.push(action);
        proof {
            assert(self@.out =~= old(self)@.out.push(action@));
        }
    }

    /// Take what was asked for so far.
    pub fn take_actions(&mut self) -> (r: Vec<RelayAction>)
        ensures
            relay_actions(r@) == old(self)@.out,
            final(self)@ == (RelayModel { out: Seq::empty(), ..old(self)@ }),
    {
        let mut r: Vec<RelayAction> = Vec::new();
        let ghost before = self@;
        r.append(&mut self.out);
        proof {
            assert(relay_actions(r@) =~= before.out);
            assert(self@.out =~= Seq::empty());
        }
        r
    }

    /// The relay's advertised capacity: the slots of its active children only.
    pub fn active_capacity(&self) -> (r: usize)
        requires
            self@.wf(),
        ensures
            r == self@.slots(),
    {
        let mut sum: usize = 0;
        let mut c: usize = 0;
        while c < self.labels.len()
            invariant
                self@.wf(),
                c <= self@.children(),
                sum == active_below(self@.capacity, self@.active, c as int),
            decreases self@.children() - c,
        {
            if self.active[c] {
                proof {
                    lemma_active_total(self@.capacity, self@.active, c as int + 1);
                }
                sum += self.capacity[c];
            }
            c += 1;
        }
        sum
    }

    /// The first child labelled `name`.
    fn position(&self, name: &str) -> (r: Option<usize>)
        ensures
            match r {
                Some(c) => c == position_from(self@.labels, name@, 0) && c < self@.children(),
                None => position_from(self@.labels, name@, 0) >= self@.children(),
            },
    {
        let mut c: usize = 0;
        while c < self.labels.len()
            invariant
                c <= self@.children(),
                position_from(self@.labels, name@, 0) == position_from(
                    self@.labels,
                    name@,
                    c as int,
                ),
            decreases self@.children() - c,
        {
            if same(self.labels[c].as_str(), name) {
                return Some(c);
            }
            c += 1;
        }
        None
    }

    /// Report `child` as being in `state`.
    pub(crate) fn report(&mut self, child: usize, state: NodeState)
        requires
            child < old(self)@.children(),
        ensures
            final(self)@ == old(self)@.reporting(child, state),
    {
        let event = Event::node(self.labels[child].as_str(), state);
        self.ask(RelayAction::Report(event));
    }

    /// Bring the standby child labelled `child` into the active set, returning its
    /// index, or `None` if there is no such standby child.
    pub fn promote(&mut self, child: &str) -> (r: Option<usize>)
        requires
            old(self)@.wf(),
        ensures
            final(self)@.wf(),
            ({
                let at = position_from(old(self)@.labels, child@, 0);
                if at < old(self)@.children() && !old(self)@.active[at] {
                    &&& r matches Some(index) && index == at
                    &&& final(self)@ == (RelayModel {
                        active: old(self)@.active.update(at, true),
                        ..old(self)@
                    })
                } else {
                    &&& r is None
                    &&& final(self)@ == old(self)@
                }
            }),
    {
        match self.position(child) {
            None => None,
            Some(index) => {
                if self.active[index] {
                    None
                } else {
                    self.active.set(index, true);
                    Some(index)
                }
            },
        }
    }

    /// Hand waiting tasks to children with a free slot, first free child first,
    /// until no task or no free slot is left. A child going from idle to busy is
    /// reported as working.
    pub(crate) fn dispatch(&mut self)
        requires
            old(self)@.wf(),
        ensures
            final(self)@ == old(self)@.dispatched(),
            final(self)@.wf(),
    {
        let ghost start = self@;
        loop
            invariant_except_break
                self@.wf(),
                start.dispatched() == self@.dispatched(),
            ensures
                self@.wf(),
                self@ == start.dispatched(),
            decreases self.pending@.len(),
        {
            let ghost before = self@;
            if self.pending.len() == 0 {
                break;
            }
            let mut c: usize = 0;
            while c < self.labels.len() && !(self.active[c] && self.alive[c] && !self.paused[c]
                && !self.draining[c] && self.load[c] < self.capacity[c])
                invariant
                    self@ == before,
                    before.wf(),
                    c <= before.children(),
                    before.first_free(0) == before.first_free(c as int),
                decreases before.children() - c,
            {
                c += 1;
            }
            if c >= self.labels.len() {
                break;
            }
            proof {
                before.lemma_handed_wf(c);
                assert(before.first_free(0) == c);
            }
            let ghost queue = self.pending@;
            let first = self.pending.pop_front().unwrap();
            proof {
                assert(first@ == before.pending[0]);
                assert(waitings(self.pending@) =~= before.pending.drop_first());
            }
            let was_idle = self.load[c] == 0;
            let message = ToAgent::Assign {
                task_id: first.task,
                payload: copy_bytes(&first.payload),
            };
            self.ask(RelayAction::ToChild { child: c, message });
            let held: usize = self.load[c];
            self.load.set(c, held + 1);
            drop_task(&mut self.inflight, first.task);
            let ghost kept = self.inflight@;
            let flight = Flight { task: first.task, child: c, payload: first.payload };
            self.inflight.push(flight);
            proof {
                assert(flights(self.inflight@) =~= flights(kept).push(flight@));
            }
            if was_idle {
                self.report(c, NodeState::Working);
            }
            proof {
                let next = before.handed(c);
                assert(self@.out =~= next.out);
                assert(self@ == next);
            }
        }
    }

    /// Record a child's terminal outcome, freeing its slot. Returns the freed
    /// child, or `None` for a task that is not running (a duplicate), which
    /// changes nothing.
    pub fn on_terminal(&mut self, task_id: TaskId) -> (r: Option<usize>)
        requires
            old(self)@.wf(),
        ensures
            final(self)@.wf(),
            r == owner_of(old(self)@.inflight, task_id),
            r is None ==> final(self)@ == old(self)@,
            r is Some ==> final(self)@ == old(self)@.released(task_id),
    {
        let ghost before = self@;
        let owner = drop_task(&mut self.inflight, task_id);
        match owner {
            None => {
                proof {
                    lemma_absent(before.inflight, task_id);
                }
            },
            Some(child) => {
                proof {
                    before.lemma_freed_wf(task_id);
                }
                let held: usize = self.load[child];
                self.load.set(child, held - 1);
            },
        }
        owner
    }

    /// Mark a child lost and put its tasks back before those already waiting, so
    /// the survivors re-run them.
    pub fn on_lost(&mut self, child: usize)
        requires
            old(self)@.wf(),
            child < old(self)@.children(),
        ensures
            final(self)@ == old(self)@.lost(child),
            final(self)@.wf(),
    {
        let ghost before = self@;
        proof {
            before.lemma_lost_wf(child);
        }
        self.alive.set(child, false);
        let ghost items = self.inflight@;
        let mut rest: Vec<Flight> = Vec::new();
        rest.append(&mut self.inflight);
        let mut kept_backwards: Vec<Flight> = Vec::new();
        proof {
            assert(items.take(items.len() as int) =~= items);
            assert(rest@ =~= items);
            assert(self@.inflight =~= Seq::empty());
        }
        while rest.len() > 0
            invariant
                rest@.len() <= items.len(),
                rest@ == items.take(rest@.len() as int),
                self.inflight@.len() == 0,
                self@ == (RelayModel {
                    alive: before.alive.update(child as int, false),
                    pending: self@.pending,
                    inflight: Seq::empty(),
                    ..before
                }),
                orphans(flights(items), child) + before.pending == orphans(
                    flights(rest@),
                    child,
                ) + self@.pending,
                without_child(flights(items), child) == without_child(flights(rest@), child)
                    + flights(kept_backwards@).reverse(),
            decreases rest@.len(),
        {
            let ghost full = flights(rest@);
            let ghost waiting = self@.pending;
            let ghost kept = flights(kept_backwards@);
            let f = rest.pop().unwrap();
            proof {
                assert(rest@ =~= items.take(rest@.len() as int));
                assert(full.drop_last() =~= flights(rest@));
                assert(full.last() == f@);
            }
            if f.child == child {
                let w = Waiting { task: f.task, payload: f.payload };
                self.pending.push_front(w);
                proof {
                    assert(self@.pending =~= seq![w@] + waiting);
                    assert(orphans(full, child) + waiting =~= orphans(flights(rest@), child)
                        + self@.pending);
                    assert(self@.inflight =~= Seq::empty());
                }
            } else {
                kept_backwards.push(f);
                proof {
                    assert(flights(kept_backwards@) =~= kept.push(f@));
                    assert(without_child(full, child) + kept.reverse() =~= without_child(
                        flights(rest@),
                        child,
                    ) + flights(kept_backwards@).reverse());
                }
            }
        }
        let ghost backwards = kept_backwards@;
        proof {
            assert(flights(rest@) =~= Seq::empty());
            assert(without_child(flights(items), child) =~= flights(backwards).reverse());
            assert(orphans(flights(items), child) + before.pending =~= self@.pending);
            assert(backwards.take(backwards.len() as int) =~= backwards);
        }
        while kept_backwards.len() > 0
            invariant
                kept_backwards@.len() + self.inflight@.len() == backwards.len(),
                kept_backwards@ == backwards.take(kept_backwards@.len() as int),
                forall|j: int|
                    0 <= j < self.inflight@.len() ==> (#[trigger] self.inflight@[j])
                        == backwards[backwards.len() - 1 - j],
                self@ == (RelayModel {
                    alive: before.alive.update(child as int, false),
                    pending: orphans(flights(items), child) + before.pending,
                    inflight: self@.inflight,
                    ..before
                }),
            decreases kept_backwards@.len(),
        {
            let f = kept_backwards.pop().unwrap();
            proof {
                assert(kept_backwards@ =~= backwards.take(kept_backwards@.len() as int));
            }
            self.inflight.push(f);
        }
        proof {
            assert(flights(self.inflight@) =~= flights(backwards).reverse());
        }
        self.load.set(child, 0);
        self.report(child, NodeState::Lost);
    }

    /// Whether any child is still up to take work.
    pub fn any_alive_child(&self) -> (r: bool)
        requires
            self@.wf(),
        ensures
            r == self@.any_alive(),
    {
        let mut c: usize = 0;
        while c < self.alive.len()
            invariant
                self@.wf(),
                c <= self.alive@.len(),
                forall|d: int| 0 <= d < c ==> !(#[trigger] self@.alive[d]),
            decreases self.alive@.len() - c,
        {
            if self.alive[c] {
                assert(self@.alive[c as int]);
                return true;
            }
            c += 1;
        }
        false
    }

    /// Kill a child: shut it down, then treat it as a dropped one. Returns whether
    /// the subtree is still alive afterwards.
    pub fn kill_child(&mut self, child: usize) -> (r: bool)
        requires
            old(self)@.wf(),
            child < old(self)@.children(),
        ensures
            (final(self)@, r) == old(self)@.after_kill(child),
            final(self)@.wf(),
            final(self)@.labels == old(self)@.labels,
    {
        if !self.alive[child] {
            return true;
        }
        proof {
            self@.lemma_killed_wf(child);
        }
        self.ask(RelayAction::ToChild { child, message: ToAgent::Shutdown });
        self.on_lost(child);
        self.dispatch();
        self.any_alive_child()
    }

    /// React to a child whose last task just finished: kill it if it was draining,
    /// leave it showing paused if paused, else report it idle. Returns whether the
    /// subtree is still alive.
    pub fn on_child_idle(&mut self, child: usize) -> (r: bool)
        requires
            old(self)@.wf(),
            child < old(self)@.children(),
        ensures
            (final(self)@, r) == old(self)@.after_idle(child),
            final(self)@.wf(),
            final(self)@.labels == old(self)@.labels,
    {
        if self.draining[child] {
            return self.kill_child(child);
        }
        if !self.paused[child] {
            self.report(child, NodeState::Idle);
        }
        true
    }

    /// Apply an operator control routed from the parent. The first hop of `target`
    /// names a child; when the path ends there the action is applied here, else it
    /// is passed one hop further down. Returns whether the subtree is still alive.
    pub fn control(&mut self, target: &str, action: ControlAction) -> (r: bool)
        requires
            old(self)@.wf(),
        ensures
            (final(self)@, r) == old(self)@.after_control(target@, action),
            final(self)@.wf(),
            final(self)@.labels == old(self)@.labels,
    {
        let chars = to_chars(target);
        let slash = find_char(&chars, '/', 0);
        let at: usize = match slash {
            Some(i) => i,
            None => chars.len(),
        };
        proof {
            lemma_split_head(target@, at as int);
        }
        let head = from_chars(&chars, 0, at);
        assert(head@ =~= target@.take(at as int));
        let child: usize = match self.position(head.as_str()) {
            Some(child) => child,
            None => {
                return true;
            },
        };
        if !self.alive[child] {
            return true;
        }
        if at < chars.len() {
            let below = from_chars(&chars, at + 1, chars.len());
            assert(below@ =~= target@.skip(at as int + 1));
            self.ask(
                RelayAction::ToChild { child, message: ToAgent::Control { target: below, action } },
            );
            return true;
        }
        match action {
            ControlAction::Pause => {
                if !self.paused[child] && !self.draining[child] {
                    self.paused.set(child, true);
                    self.report(child, NodeState::Paused);
                }
            },
            ControlAction::Resume => {
                if self.paused[child] {
                    self.paused.set(child, false);
                    proof {
                        self@.lemma_dispatched_wf();
                    }
                    self.dispatch();
                    let state = if self.load[child] > 0 {
                        NodeState::Working
                    } else {
                        NodeState::Idle
                    };
                    self.report(child, state);
                }
            },
            ControlAction::Kill { mode } => match mode {
                KillMode::Now => {
                    return self.kill_child(child);
                },
                KillMode::AfterCurrent => {
                    if self.load[child] == 0 {
                        return self.kill_child(child);
                    } else if !self.draining[child] {
                        self.draining.set(child, true);
                        self.report(child, NodeState::Draining);
                    }
                },
            },
        }
        true
    }
}

proof fn lemma_absent(inflight: Seq<FlightModel>, task: TaskId)
    requires
        owner_of(inflight, task) is None,
    ensures
        without_task(inflight, task) == inflight,
    decreases inflight.len(),
{
    if inflight.len() > 0 {
        lemma_absent(inflight.drop_last(), task);
        assert(inflight.drop_last().push(inflight.last()) =~= inflight);
    }
}


impl Relay {
    /// Forward a terminal outcome and keep the schedule fed.
    fn finish(&mut self, child: usize, message: FromAgent) -> (r: bool)
        requires
            old(self)@.wf(),
            child < old(self)@.children(),
        ensures
            ({
                let next = old(self)@.doing(
                    RelayActionModel::ToParent { reply: message@ },
                ).dispatched();
                (final(self)@, r) == if next.load[child as int] == 0 {
                    next.after_idle(child)
                } else {
                    (next, true)
                }
            }),
            final(self)@.wf(),
            final(self)@.labels == old(self)@.labels,
    {
        self.ask(RelayAction::ToParent(message));
        proof {
            self@.lemma_dispatched_wf();
        }
        self.dispatch();
        if self.load[child] == 0 {
            self.on_child_idle(child)
        } else {
            true
        }
    }

    /// Take on a task from the parent.
    pub fn accept(&mut self, task: TaskId, payload: Vec<u8>)
        requires
            old(self)@.wf(),
        ensures
            final(self)@ == (RelayModel {
                pending: old(self)@.pending.push(WaitingModel { task, payload: payload@ }),
                ..old(self)@
            }).dispatched(),
            final(self)@.wf(),
    {
        let ghost before = self@;
        let w = Waiting { task, payload };
        self.pending.push_back(w);
        proof {
            assert(self@.pending =~= before.pending.push(w@));
        }
        self.dispatch();
    }

    /// Tell the parent how many slots there are.
    pub(crate) fn advertise(&mut self)
        requires
            old(self)@.wf(),
        ensures
            final(self)@ == old(self)@.advertising(),
            final(self)@.wf(),
    {
        let slots: usize = self.active_capacity();
        self.ask(RelayAction::ToParent(FromAgent::Capacity { slots }));
    }

    /// Handle one event from a child heard at `now`, forwarding its task lifecycle
    /// and observability up and keeping the schedule fed. Any message is proof of
    /// life. Returns whether the subtree is still alive; `false` means the relay
    /// should tear down.
    pub fn handle_child(&mut self, event: AgentEvent, now: u64) -> (r: Result<bool, RelayError>)
        requires
            old(self)@.wf(),
            about(event) < old(self)@.children(),
            old(self)@.fits(event),
        ensures
            match old(self)@.after_child(event, now) {
                Ok((next, alive)) => r == Ok::<bool, RelayError>(alive) && final(self)@ == next
                    && final(self)@.wf(),
                Err(e) => r == Err::<bool, RelayError>(e) && final(self)@ == old(self)@.heard(
                    event,
                    now,
                ) && final(self)@.wf(),
            },
            final(self)@.labels == old(self)@.labels,
    {
        match event {
            AgentEvent::Lost(child) => {
                self.on_lost(child);
                proof {
                    self@.lemma_dispatched_wf();
                }
                self.dispatch();
                Ok(self.any_alive_child())
            },
            AgentEvent::Message(child, message) => {
                self.last_activity.set(child, now);
                match message {
                    FromAgent::Started { task_id } => {
                        self.ask(RelayAction::ToParent(FromAgent::Started { task_id }));
                        Ok(true)
                    },
                    FromAgent::Completed { task_id, output, via } => {
                        proof {
                            if owner_of(self@.inflight, task_id) is Some {
                                self@.lemma_freed_wf(task_id);
                            }
                        }
                        match self.on_terminal(task_id) {
                            None => Ok(true),
                            Some(owner) => {
                                let via = join_label(self.labels[owner].as_str(), via.as_str());
                                Ok(
                                    self.finish(
                                        owner,
                                        FromAgent::Completed { task_id, output, via },
                                    ),
                                )
                            },
                        }
                    },
                    FromAgent::Failed { task_id, error, via } => {
                        proof {
                            if owner_of(self@.inflight, task_id) is Some {
                                self@.lemma_freed_wf(task_id);
                            }
                        }
                        match self.on_terminal(task_id) {
                            None => Ok(true),
                            Some(owner) => {
                                let via = join_label(self.labels[owner].as_str(), via.as_str());
                                Ok(self.finish(owner, FromAgent::Failed { task_id, error, via }))
                            },
                        }
                    },
                    FromAgent::Observe(observed) => {
                        let seen = observed.prefix_host(self.labels[child].as_str());
                        self.ask(RelayAction::ToParent(FromAgent::Observe(seen)));
                        Ok(true)
                    },
                    FromAgent::Capacity { slots } => {
                        self.capacity.set(child, slots);
                        self.advertise();
                        proof {
                            self@.lemma_dispatched_wf();
                        }
                        self.dispatch();
                        Ok(true)
                    },
                    FromAgent::Pong => Ok(true),
                    FromAgent::Ready { .. } => Err(RelayError::RepeatedHandshake),
                    FromAgent::Discovered { .. } => Err(RelayError::RepeatedHandshake),
                }
            },
        }
    }

    /// Shut the live children down, reporting each done.
    pub fn shutdown(&mut self)
        requires
            old(self)@.wf(),
        ensures
            final(self)@ == old(self)@.shut_below(old(self)@.children() as int),
            final(self)@.wf(),
    {
        let ghost start = self@;
        let mut c: usize = 0;
        while c < self.labels.len()
            invariant
                start.wf(),
                self@.wf(),
                c <= start.children(),
                self@ == start.shut_below(c as int),
                self@.labels == start.labels,
                self@.alive == start.alive,
            decreases start.children() - c,
        {
            if self.alive[c] {
                self.report(c, NodeState::Done);
                self.ask(RelayAction::ToChild { child: c, message: ToAgent::Shutdown });
            }
            c += 1;
        }
    }

    /// Splice in a child that finished its handshake at `now`: it is active at
    /// once, the larger capacity is advertised, and waiting work goes to it.
    pub fn splice(&mut self, label: String, capacity: usize, now: u64) -> (child: usize)
        requires
            old(self)@.wf(),
            old(self)@.children() < usize::MAX,
            total_below(old(self)@.capacity, old(self)@.children() as int) + capacity
                <= usize::MAX,
        ensures
            child == old(self)@.children(),
            final(self)@ == old(self)@.grown(label@, capacity, now).reporting(
                child,
                NodeState::Idle,
            ).advertising().dispatched(),
            final(self)@.wf(),
    {
        let ghost start = self@;
        let child: usize = self.labels.len();
        self.labels.push(label);
        self.capacity.push(capacity);
        self.active.push(true);
        self.alive.push(true);
        self.paused.push(false);
        self.draining.push(false);
        self.load.push(0);
        self.last_activity.push(now);
        proof {
            let next = start.grown(label@, capacity, now);
            assert(self@.labels =~= next.labels);
            assert(self@ == next);
            start.lemma_grown_keeps(label@, capacity, now);
        }
        self.report(child, NodeState::Idle);
        self.advertise();
        proof {
            self@.lemma_dispatched_wf();
        }
        self.dispatch();
        child
    }
}

impl RelayModel {
    /// Whether the capacities still add up to a machine integer after `event`.
    pub open spec fn fits(self, event: AgentEvent) -> bool {
        event matches AgentEvent::Message(child, FromAgent::Capacity { slots }) ==> total_below(
            self.capacity.update(child as int, slots),
            self.children() as int,
        ) <= usize::MAX
    }

    /// The relay after each live child among the first `n` is reported done and
    /// told to shut down.
    pub open spec fn shut_below(self, n: int) -> RelayModel
        decreases n,
    {
        if n <= 0 {
            self
        } else {
            let before = self.shut_below(n - 1);
            if self.alive[n - 1] {
                before.reporting((n - 1) as usize, NodeState::Done).doing(
                    RelayActionModel::ToChild {
                        child: (n - 1) as usize,
                        message: ToAgentModel::Shutdown,
                    },
                )
            } else {
                before
            }
        }
    }

    /// The relay with one more child, active and idle.
    pub open spec fn grown(self, label: Seq<char>, capacity: usize, now: u64) -> RelayModel {
        RelayModel {
            labels: self.labels.push(label),
            capacity: self.capacity.push(capacity),
            active: self.active.push(true),
            alive: self.alive.push(true),
            paused: self.paused.push(false),
            draining: self.draining.push(false),
            load: self.load.push(0),
            last_activity: self.last_activity.push(now),
            ..self
        }
    }

    pub(crate) proof fn lemma_grown_keeps(self, label: Seq<char>, capacity: usize, now: u64)
        requires
            self.wf(),
            self.children() < usize::MAX,
            total_below(self.capacity, self.children() as int) + capacity <= usize::MAX,
        ensures
            self.grown(label, capacity, now).wf(),
    {
        let next = self.grown(label, capacity, now);
        lemma_total_same(next.capacity, self.capacity, self.children() as int);
        assert forall|c: int| 0 <= c < next.children() implies runs(next.inflight, c as usize)
            <= #[trigger] next.load[c] by {
            if c == self.children() {
                lemma_runs_none(self.inflight, c as usize);
            } else {
                assert(runs(self.inflight, c as usize) <= self.load[c]);
            }
        }
        assert forall|c: int| 0 <= c < next.children() && !(#[trigger] next.alive[c]) implies next.load[c]
            == 0 by {
            assert(!self.alive[c]);
        }
        assert forall|i: int| 0 <= i < next.inflight.len() implies (
        #[trigger] next.inflight[i]).child < next.children() by {
            assert(self.inflight[i].child < self.children());
        }
    }
}

proof fn lemma_runs_none(inflight: Seq<FlightModel>, child: usize)
    requires
        forall|i: int| 0 <= i < inflight.len() ==> (#[trigger] inflight[i]).child < child,
    ensures
        runs(inflight, child) == 0,
    decreases inflight.len(),
{
    if inflight.len() > 0 {
        let rest = inflight.drop_last();
        assert forall|i: int| 0 <= i < rest.len() implies (#[trigger] rest[i]).child < child by {
            assert(inflight[i].child < child);
        }
        lemma_runs_none(rest, child);
        assert(inflight[inflight.len() - 1].child < child);
    }
}

impl RelayModel {
    proof fn lemma_released_tasks(self, task: TaskId, other: TaskId)
        requires
            self.wf(),
            owner_of(self.inflight, task) is Some,
            other != task,
        ensures
            self.released(task).holds_task(other) <==> self.holds_task(other),
    {
        let kept = without_task(self.inflight, task);
        lemma_without_task(self.inflight, task);
        lemma_owner(self.inflight, other);
        lemma_owner(kept, other);
        if owner_of(kept, other) is Some {
            let i = choose|i: int| 0 <= i < kept.len() && (#[trigger] kept[i]).task == other;
            assert(kept.contains(kept[i]));
            let k = self.inflight.index_of(kept[i]);
            assert(self.inflight.contains(kept[i]));
            assert(self.inflight[k].task == other);
        }
        if owner_of(self.inflight, other) is Some {
            let i = choose|i: int|
                0 <= i < self.inflight.len() && (#[trigger] self.inflight[i]).task == other;
            assert(self.inflight.contains(self.inflight[i]));
            assert(kept.contains(self.inflight[i]));
            let k = kept.index_of(self.inflight[i]);
            assert(kept[k].task == other);
        }
    }

    proof fn lemma_killed_tasks(self, child: usize, task: TaskId)
        requires
            self.wf(),
            child < self.children(),
        ensures
            self.killed(child).holds_task(task) <==> self.holds_task(task),
    {
        let asked = self.doing(
            RelayActionModel::ToChild { child, message: ToAgentModel::Shutdown },
        );
        assert(asked.wf());
        assert(asked.holds_task(task) <==> self.holds_task(task));
        asked.law_a_lost_child_loses_no_task(child, task);
        asked.lost(child).law_dispatch_keeps_every_task(task);
    }

    /// Killing a child drops no task: what it was running waits again.
    pub proof fn law_a_kill_loses_no_task(self, child: usize, task: TaskId)
        requires
            self.wf(),
            child < self.children(),
        ensures
            self.after_kill(child).0.holds_task(task) <==> self.holds_task(task),
    {
        if self.alive[child as int] {
            self.lemma_killed_tasks(child, task);
        }
    }

    /// An outcome frees its own task only: the relay goes on answering for every
    /// other one.
    pub proof fn law_an_outcome_frees_only_its_task(
        self,
        task: TaskId,
        message: FromAgentModel,
        other: TaskId,
    )
        requires
            self.wf(),
            other != task,
        ensures
            self.after_terminal(task, message).0.holds_task(other) <==> self.holds_task(other),
    {
        match owner_of(self.inflight, task) {
            None => {},
            Some(child) => {
                self.lemma_freed_wf(task);
                self.lemma_released_tasks(task, other);
                let freed = self.released(task).doing(RelayActionModel::ToParent { reply: message });
                assert(freed.wf());
                assert(freed.holds_task(other) <==> self.released(task).holds_task(other));
                freed.lemma_dispatched_wf();
                freed.law_dispatch_keeps_every_task(other);
                let next = freed.dispatched();
                next.law_a_kill_loses_no_task(child, other);
            },
        }
    }
}

/// Whether `task` was sent to `child` with the input `payload`.
pub open spec fn sent_to(
    out: Seq<RelayActionModel>,
    child: usize,
    task: TaskId,
    payload: Seq<u8>,
) -> bool {
    exists|k: int|
        0 <= k < out.len() && #[trigger] out[k] == (RelayActionModel::ToChild {
            child,
            message: ToAgentModel::Assign { task_id: task, payload },
        })
}

/// Whether the relay keeps every task together with an input it was `given` with it:
/// while it waits, while it runs, and in whatever is sent to a child; and whether
/// every task that runs on a child was sent to that child.
pub open spec fn carries(m: RelayModel, given: spec_fn(TaskId, Seq<u8>) -> bool) -> bool {
    &&& forall|i: int|
        0 <= i < m.pending.len() ==> given(
            (#[trigger] m.pending[i]).task,
            m.pending[i].payload,
        )
    &&& forall|i: int|
        0 <= i < m.inflight.len() ==> given(
            (#[trigger] m.inflight[i]).task,
            m.inflight[i].payload,
        ) && sent_to(m.out, m.inflight[i].child, m.inflight[i].task, m.inflight[i].payload)
    &&& forall|k: int|
        0 <= k < m.out.len() ==> ((#[trigger] m.out[k]) matches RelayActionModel::ToChild {
            message: ToAgentModel::Assign { task_id, payload },
            ..
        } ==> given(task_id, payload))
}

proof fn lemma_sent_stays(
    out: Seq<RelayActionModel>,
    action: RelayActionModel,
    child: usize,
    task: TaskId,
    payload: Seq<u8>,
)
    requires
        sent_to(out, child, task, payload),
    ensures
        sent_to(out.push(action), child, task, payload),
{
    let k = choose|k: int|
        0 <= k < out.len() && #[trigger] out[k] == (RelayActionModel::ToChild {
            child,
            message: ToAgentModel::Assign { task_id: task, payload },
        });
    assert(out.push(action)[k] == out[k]);
}

pub(crate) proof fn lemma_carries_said(
    m: RelayModel,
    action: RelayActionModel,
    given: spec_fn(TaskId, Seq<u8>) -> bool,
)
    requires
        carries(m, given),
        action matches RelayActionModel::ToChild { message, .. } ==> !(message is Assign),
    ensures
        carries(m.doing(action), given),
{
    let next = m.doing(action);
    assert forall|i: int| 0 <= i < next.inflight.len() implies given(
        (#[trigger] next.inflight[i]).task,
        next.inflight[i].payload,
    ) && sent_to(next.out, next.inflight[i].child, next.inflight[i].task, next.inflight[i].payload) by {
        let f = m.inflight[i];
        lemma_sent_stays(m.out, action, f.child, f.task, f.payload);
    }
    assert forall|k: int| 0 <= k < next.out.len() implies ((#[trigger] next.out[k]) matches
        RelayActionModel::ToChild { message: ToAgentModel::Assign { task_id, payload }, .. }
        ==> given(task_id, payload)) by {
        if k < m.out.len() {
            assert(next.out[k] == m.out[k]);
        }
    }
}

proof fn lemma_orphan_inputs(inflight: Seq<FlightModel>, child: usize, k: int)
    requires
        0 <= k < orphans(inflight, child).len(),
    ensures
        exists|i: int|
            0 <= i < inflight.len() && (#[trigger] inflight[i]).task == orphans(
                inflight,
                child,
            )[k].task && inflight[i].payload == orphans(inflight, child)[k].payload
                && inflight[i].child == child,
    decreases inflight.len(),
{
    if inflight.len() > 0 {
        let rest = inflight.drop_last();
        if inflight.last().child == child && k == orphans(rest, child).len() {
            assert(inflight[inflight.len() - 1] == inflight.last());
        } else {
            lemma_orphan_inputs(rest, child, k);
            let i = choose|i: int|
                0 <= i < rest.len() && (#[trigger] rest[i]).task == orphans(rest, child)[k].task
                    && rest[i].payload == orphans(rest, child)[k].payload && rest[i].child == child;
            assert(inflight[i] == rest[i]);
        }
    }
}

impl RelayModel {
    proof fn lemma_handed_carries(
        self,
        child: usize,
        given: spec_fn(TaskId, Seq<u8>) -> bool,
    )
        requires
            carries(self, given),
            self.pending.len() > 0,
        ensures
            carries(self.handed(child), given),
    {
        let first = self.pending[0];
        let send = RelayActionModel::ToChild {
            child,
            message: ToAgentModel::Assign { task_id: first.task, payload: first.payload },
        };
        let kept = without_task(self.inflight, first.task);
        let flight = FlightModel { task: first.task, child, payload: first.payload };
        let next = RelayModel {
            pending: self.pending.drop_first(),
            load: self.load.update(child as int, (self.load[child as int] + 1) as usize),
            inflight: kept.push(flight),
            ..self
        }.doing(send);
        lemma_without_task(self.inflight, first.task);
        assert forall|i: int| 0 <= i < next.inflight.len() implies given(
            (#[trigger] next.inflight[i]).task,
            next.inflight[i].payload,
        ) && sent_to(
            next.out,
            next.inflight[i].child,
            next.inflight[i].task,
            next.inflight[i].payload,
        ) by {
            if i < kept.len() {
                let f = kept[i];
                assert(kept.contains(f));
                let j = self.inflight.index_of(f);
                assert(self.inflight[j] == f);
                lemma_sent_stays(self.out, send, f.child, f.task, f.payload);
            } else {
                assert(next.out[self.out.len() as int] == send);
            }
        }
        assert forall|k: int| 0 <= k < next.out.len() implies ((#[trigger] next.out[k]) matches
            RelayActionModel::ToChild { message: ToAgentModel::Assign { task_id, payload }, .. }
            ==> given(task_id, payload)) by {
            if k < self.out.len() {
                assert(next.out[k] == self.out[k]);
            }
        }
        assert forall|i: int| 0 <= i < next.pending.len() implies given(
            (#[trigger] next.pending[i]).task,
            next.pending[i].payload,
        ) by {
            assert(next.pending[i] == self.pending[i + 1]);
        }
        assert(carries(next, given));
        lemma_carries_said(
            next,
            RelayActionModel::Report {
                event: EventModel::Node {
                    host: self.labels[child as int],
                    state: NodeState::Working,
                },
            },
            given,
        );
    }

    pub(crate) proof fn lemma_dispatched_carries(self, given: spec_fn(TaskId, Seq<u8>) -> bool)
        requires
            carries(self, given),
        ensures
            carries(self.dispatched(), given),
        decreases self.pending.len(),
    {
        if self.pending.len() > 0 && self.first_free(0) < self.children() {
            let child = self.first_free(0) as usize;
            self.lemma_handed_carries(child, given);
            self.handed(child).lemma_dispatched_carries(given);
        }
    }

    pub(crate) proof fn lemma_lost_carries(
        self,
        child: usize,
        given: spec_fn(TaskId, Seq<u8>) -> bool,
    )
        requires
            carries(self, given),
        ensures
            carries(self.lost(child), given),
    {
        let o = orphans(self.inflight, child);
        let next = RelayModel {
            alive: self.alive.update(child as int, false),
            pending: o + self.pending,
            inflight: without_child(self.inflight, child),
            load: self.load.update(child as int, 0),
            ..self
        };
        lemma_without_child(self.inflight, child);
        assert forall|i: int| 0 <= i < next.inflight.len() implies given(
            (#[trigger] next.inflight[i]).task,
            next.inflight[i].payload,
        ) && sent_to(
            next.out,
            next.inflight[i].child,
            next.inflight[i].task,
            next.inflight[i].payload,
        ) by {
            let f = next.inflight[i];
            assert(next.inflight.contains(f));
            let j = self.inflight.index_of(f);
            assert(self.inflight[j] == f);
        }
        assert forall|i: int| 0 <= i < next.pending.len() implies given(
            (#[trigger] next.pending[i]).task,
            next.pending[i].payload,
        ) by {
            if i < o.len() {
                lemma_orphan_inputs(self.inflight, child, i);
                assert(next.pending[i] == o[i]);
            } else {
                assert(next.pending[i] == self.pending[i - o.len()]);
            }
        }
        lemma_carries_said(
            next,
            RelayActionModel::Report {
                event: EventModel::Node {
                    host: self.labels[child as int],
                    state: NodeState::Lost,
                },
            },
            given,
        );
    }

    proof fn lemma_kill_carries(self, child: usize, given: spec_fn(TaskId, Seq<u8>) -> bool)
        requires
            carries(self, given),
        ensures
            carries(self.after_kill(child).0, given),
    {
        let action = RelayActionModel::ToChild { child, message: ToAgentModel::Shutdown };
        lemma_carries_said(self, action, given);
        self.doing(action).lemma_lost_carries(child, given);
        self.doing(action).lost(child).lemma_dispatched_carries(given);
    }

    pub(crate) proof fn lemma_reporting_carries(
        self,
        child: usize,
        state: NodeState,
        given: spec_fn(TaskId, Seq<u8>) -> bool,
    )
        requires
            carries(self, given),
        ensures
            carries(self.reporting(child, state), given),
    {
        lemma_carries_said(
            self,
            RelayActionModel::Report {
                event: EventModel::Node { host: self.labels[child as int], state },
            },
            given,
        );
    }

    /// Only what waits, runs and is sent matters to which inputs a relay carries.
    pub(crate) proof fn lemma_carries_alike(
        self,
        other: RelayModel,
        given: spec_fn(TaskId, Seq<u8>) -> bool,
    )
        requires
            carries(self, given),
            other.pending == self.pending,
            other.inflight == self.inflight,
            other.out == self.out,
        ensures
            carries(other, given),
    {
    }

    proof fn lemma_idle_carries(self, child: usize, given: spec_fn(TaskId, Seq<u8>) -> bool)
        requires
            carries(self, given),
        ensures
            carries(self.after_idle(child).0, given),
    {
        self.lemma_kill_carries(child, given);
        self.lemma_reporting_carries(child, NodeState::Idle, given);
    }

    /// An operator's control leaves every task with the input it was given with.
    pub proof fn law_a_control_keeps_the_inputs(
        self,
        target: Seq<char>,
        action: ControlAction,
        given: spec_fn(TaskId, Seq<u8>) -> bool,
    )
        requires
            carries(self, given),
        ensures
            carries(self.after_control(target, action).0, given),
    {
        let (head, rest) = split_head(target);
        let at = position_from(self.labels, head, 0);
        let child = at as usize;
        match rest {
            Some(below) => {
                lemma_carries_said(
                    self,
                    RelayActionModel::ToChild {
                        child,
                        message: ToAgentModel::Control { target: below, action },
                    },
                    given,
                );
            },
            None => {
                let c = child as int;
                self.lemma_kill_carries(child, given);
                let paused = RelayModel { paused: self.paused.update(c, true), ..self };
                paused.lemma_reporting_carries(child, NodeState::Paused, given);
                let draining = RelayModel { draining: self.draining.update(c, true), ..self };
                draining.lemma_reporting_carries(child, NodeState::Draining, given);
                let resumed = RelayModel { paused: self.paused.update(c, false), ..self };
                resumed.lemma_dispatched_carries(given);
                resumed.dispatched().lemma_reporting_carries(child, NodeState::Working, given);
                resumed.dispatched().lemma_reporting_carries(child, NodeState::Idle, given);
            },
        }
    }

    proof fn lemma_terminal_carries(
        self,
        task: TaskId,
        message: FromAgentModel,
        given: spec_fn(TaskId, Seq<u8>) -> bool,
    )
        requires
            carries(self, given),
        ensures
            carries(self.after_terminal(task, message).0, given),
    {
        match owner_of(self.inflight, task) {
            None => {},
            Some(child) => {
                let freed = self.released(task);
                lemma_without_task(self.inflight, task);
                assert forall|i: int| 0 <= i < freed.inflight.len() implies given(
                    (#[trigger] freed.inflight[i]).task,
                    freed.inflight[i].payload,
                ) && sent_to(
                    freed.out,
                    freed.inflight[i].child,
                    freed.inflight[i].task,
                    freed.inflight[i].payload,
                ) by {
                    let f = freed.inflight[i];
                    assert(freed.inflight.contains(f));
                    let j = self.inflight.index_of(f);
                    assert(self.inflight[j] == f);
                }
                let action = RelayActionModel::ToParent { reply: message };
                lemma_carries_said(freed, action, given);
                let told = freed.doing(action);
                told.lemma_dispatched_carries(given);
                told.dispatched().lemma_idle_carries(child, given);
            },
        }
    }

    /// Whatever a child sends, and when it is lost, every task keeps the input it was
    /// given with: what is handed out again is what was handed out first.
    pub proof fn law_a_child_leaves_the_inputs(
        self,
        event: AgentEvent,
        now: u64,
        given: spec_fn(TaskId, Seq<u8>) -> bool,
    )
        requires
            carries(self, given),
        ensures
            self.after_child(event, now) matches Ok((next, _)) ==> carries(next, given),
    {
        match event {
            AgentEvent::Lost(child) => {
                self.lemma_lost_carries(child, given);
                self.lost(child).lemma_dispatched_carries(given);
            },
            AgentEvent::Message(child, message) => {
                let heard = self.heard(event, now);
                self.lemma_carries_alike(heard, given);
                match message {
                    FromAgent::Started { task_id } => {
                        lemma_carries_said(
                            heard,
                            RelayActionModel::ToParent {
                                reply: FromAgentModel::Started { task_id },
                            },
                            given,
                        );
                    },
                    FromAgent::Completed { task_id, output, via } => {
                        heard.lemma_terminal_carries(
                            task_id,
                            FromAgentModel::Completed {
                                task_id,
                                output: output@,
                                via: self.full_via(task_id, via@),
                            },
                            given,
                        );
                    },
                    FromAgent::Failed { task_id, error, via } => {
                        heard.lemma_terminal_carries(
                            task_id,
                            FromAgentModel::Failed {
                                task_id,
                                error: error@,
                                via: self.full_via(task_id, via@),
                            },
                            given,
                        );
                    },
                    FromAgent::Observe(observed) => {
                        lemma_carries_said(
                            heard,
                            RelayActionModel::ToParent {
                                reply: FromAgentModel::Observe {
                                    event: observed@.prefixed(self.labels[child as int]),
                                },
                            },
                            given,
                        );
                    },
                    FromAgent::Capacity { slots } => {
                        let more = RelayModel {
                            capacity: self.capacity.update(child as int, slots),
                            ..heard
                        };
                        more.lemma_advertising_carries(given);
                        more.advertising().lemma_dispatched_carries(given);
                    },
                    _ => {},
                }
            },
        }
    }

    pub(crate) proof fn lemma_advertising_carries(
        self,
        given: spec_fn(TaskId, Seq<u8>) -> bool,
    )
        requires
            carries(self, given),
        ensures
            carries(self.advertising(), given),
    {
        lemma_carries_said(
            self,
            RelayActionModel::ToParent {
                reply: FromAgentModel::Capacity { slots: self.slots() as usize },
            },
            given,
        );
    }
}

/// Whether `after` still begins with what `before` asked for.
pub open spec fn goes_on(before: Seq<RelayActionModel>, after: Seq<RelayActionModel>) -> bool {
    before.len() <= after.len() && after.take(before.len() as int) == before
}

/// Whether `action` is asked for at or after position `from`.
pub open spec fn asked_since(
    out: Seq<RelayActionModel>,
    from: int,
    action: RelayActionModel,
) -> bool {
    exists|k: int| from <= k < out.len() && #[trigger] out[k] == action
}

/// Whether the `k`-th action of `after` is one that handing out waiting tasks asks for:
/// a task to a child that may take one, or the report that a child that was idle works.
pub open spec fn handing_out(before: RelayModel, after: RelayModel, k: int) -> bool {
    match after.out[k] {
        RelayActionModel::ToChild { child, message } => message is Assign && child
            < before.labels.len() && before.active[child as int] && before.alive[child as int]
            && !before.paused[child as int] && !before.draining[child as int],
        RelayActionModel::Report { event } => exists|c: int|
            0 <= c < before.labels.len() && before.load[c] == 0 && after.load[c] > 0
                && #[trigger] working_report(before, c) == event,
        _ => false,
    }
}

/// The report that child `c` works.
pub open spec fn working_report(m: RelayModel, c: int) -> EventModel {
    EventModel::Node { host: m.labels[c], state: NodeState::Working }
}

/// Whether `after` comes from `before` by handing out waiting tasks alone, those that
/// waited longest first, each sent with its input to a child that may take one and has
/// room.
pub open spec fn dispatches(before: RelayModel, after: RelayModel) -> bool {
    let from = before.out.len() as int;
    let gone = before.pending.len() - after.pending.len();
    &&& after.labels == before.labels
    &&& after.capacity == before.capacity
    &&& after.active == before.active
    &&& after.alive == before.alive
    &&& after.paused == before.paused
    &&& after.draining == before.draining
    &&& after.last_activity == before.last_activity
    &&& after.load.len() == before.load.len()
    &&& goes_on(before.out, after.out)
    &&& forall|k: int| from <= k < after.out.len() ==> #[trigger] handing_out(before, after, k)
    &&& gone >= 0
    &&& after.pending == before.pending.skip(gone)
    &&& forall|j: int| 0 <= j < gone ==> #[trigger] sent_on(before, after, j)
    &&& forall|c: int|
        0 <= c < before.load.len() ==> (#[trigger] after.load[c]) == before.load[c] || (
        before.load[c] < after.load[c] <= before.capacity[c])
}

/// Whether the `j`-th waiting task of `before` was sent to some child, with its input.
pub open spec fn sent_on(before: RelayModel, after: RelayModel, j: int) -> bool {
    exists|child: usize| #[trigger]
        sent_since(
            after.out,
            before.out.len() as int,
            child,
            before.pending[j].task,
            before.pending[j].payload,
        )
}

/// Whether `task` was sent to `child` with `payload` at or after position `from`.
pub open spec fn sent_since(
    out: Seq<RelayActionModel>,
    from: int,
    child: usize,
    task: TaskId,
    payload: Seq<u8>,
) -> bool {
    asked_since(
        out,
        from,
        RelayActionModel::ToChild {
            child,
            message: ToAgentModel::Assign { task_id: task, payload },
        },
    )
}

impl RelayModel {
    proof fn lemma_handed_dispatches(self, child: usize)
        requires
            self.wf(),
            self.pending.len() > 0,
            child < self.children(),
            self.free(child as int),
        ensures
            dispatches(self, self.handed(child)),
    {
        let next = self.handed(child);
        let from = self.out.len() as int;
        let first = self.pending[0];
        assert(next.out.take(from) =~= self.out);
        assert(next.pending =~= self.pending.skip(1));
        assert forall|k: int| from <= k < next.out.len() implies #[trigger] handing_out(
            self,
            next,
            k,
        ) by {
            if k > from {
                assert(working_report(self, child as int) == next.out[k]->event);
            }
        }
        assert(next.out[from] == (RelayActionModel::ToChild {
            child,
            message: ToAgentModel::Assign { task_id: first.task, payload: first.payload },
        }));
        assert(sent_since(next.out, from, child, first.task, first.payload));
        assert(sent_on(self, next, 0));
    }

    proof fn lemma_dispatches_twice(self, b: RelayModel, c: RelayModel)
        requires
            dispatches(self, b),
            dispatches(b, c),
            self.load.len() == self.labels.len(),
        ensures
            dispatches(self, c),
    {
        let from = self.out.len() as int;
        let mid = b.out.len() as int;
        assert(c.out.take(from) =~= self.out) by {
            assert(c.out.take(from) =~= c.out.take(mid).take(from));
        }
        assert forall|k: int| from <= k < mid implies c.out[k] == b.out[k] by {
            assert(c.out.take(mid)[k] == c.out[k]);
        }
        assert forall|k: int| from <= k < c.out.len() implies #[trigger] handing_out(
            self,
            c,
            k,
        ) by {
            if k < mid {
                assert(handing_out(self, b, k));
                if let RelayActionModel::Report { event } = b.out[k] {
                    let x = choose|x: int|
                        0 <= x < self.labels.len() && self.load[x] == 0 && b.load[x] > 0
                            && #[trigger] working_report(self, x) == event;
                    assert(c.load[x] >= b.load[x]);
                    assert(working_report(self, x) == event);
                }
            } else {
                assert(handing_out(b, c, k));
                if let RelayActionModel::Report { event } = c.out[k] {
                    let x = choose|x: int|
                        0 <= x < b.labels.len() && b.load[x] == 0 && c.load[x] > 0
                            && #[trigger] working_report(b, x) == event;
                    assert(b.load[x] == self.load[x] || self.load[x] < b.load[x]);
                    assert(working_report(self, x) == event);
                }
            }
        }
        let first = self.pending.len() - b.pending.len();
        let gone = self.pending.len() - c.pending.len();
        assert(c.pending =~= self.pending.skip(gone));
        assert forall|j: int| 0 <= j < gone implies #[trigger] sent_on(self, c, j) by {
            let w = self.pending[j];
            if j < first {
                assert(sent_on(self, b, j));
                let child = choose|child: usize| #[trigger]
                    sent_since(b.out, from, child, w.task, w.payload);
                let action = RelayActionModel::ToChild {
                    child,
                    message: ToAgentModel::Assign { task_id: w.task, payload: w.payload },
                };
                let k = choose|k: int| from <= k < b.out.len() && #[trigger] b.out[k] == action;
                assert(c.out[k] == action);
                assert(sent_since(c.out, from, child, w.task, w.payload));
            } else {
                assert(b.pending[j - first] == w);
                assert(sent_on(b, c, j - first));
                let child = choose|child: usize| #[trigger]
                    sent_since(c.out, mid, child, w.task, w.payload);
                let action = RelayActionModel::ToChild {
                    child,
                    message: ToAgentModel::Assign { task_id: w.task, payload: w.payload },
                };
                let k = choose|k: int| mid <= k < c.out.len() && #[trigger] c.out[k] == action;
                assert(from <= k);
                assert(sent_since(c.out, from, child, w.task, w.payload));
            }
        }
        assert forall|x: int| 0 <= x < self.load.len() implies (#[trigger] c.load[x])
            == self.load[x] || (self.load[x] < c.load[x] <= self.capacity[x]) by {
            assert(b.load[x] == self.load[x] || self.load[x] < b.load[x]);
        }
    }

    /// Dispatching only hands out waiting tasks: those that waited longest first, each
    /// sent once taken with its input, to a child that is active, up, neither paused nor
    /// draining, and has room; and whoever starts working is reported so.
    pub proof fn law_dispatch_sends_what_waited_longest(self)
        requires
            self.wf(),
        ensures
            dispatches(self, self.dispatched()),
        decreases self.pending.len(),
    {
        self.lemma_first_free(0);
        if self.pending.len() > 0 && self.first_free(0) < self.children() {
            let c = self.first_free(0) as usize;
            self.lemma_handed_wf(c);
            self.lemma_handed_dispatches(c);
            self.handed(c).law_dispatch_sends_what_waited_longest();
            self.lemma_dispatches_twice(self.handed(c), self.dispatched());
        } else {
            assert(self.out.take(self.out.len() as int) =~= self.out);
            assert(self.pending.skip(0) =~= self.pending);
        }
    }

    /// What is sent up and down once `task`, which runs on `owner`, is over: the outcome
    /// goes up first; then a child left without a task is reported idle, unless an
    /// operator paused it, or shut down and given up if it was only to finish its tasks.
    pub open spec fn over_on(
        self,
        owner: usize,
        reply: FromAgentModel,
        next: RelayModel,
        up: bool,
    ) -> bool {
        let from = self.out.len() as int;
        let c = owner as int;
        &&& next.labels == self.labels
        &&& next.capacity == self.capacity
        &&& next.active == self.active
        &&& next.paused == self.paused
        &&& next.draining == self.draining
        &&& goes_on(self.out, next.out)
        &&& from < next.out.len()
        &&& next.out[from] == (RelayActionModel::ToParent { reply })
        &&& forall|k: int|
            from < k < next.out.len() ==> !((#[trigger] next.out[k]) is ToParent)
        &&& next.load[c] == 0 && next.alive[c] && !self.paused[c] ==> asked_since(
            next.out,
            from + 1,
            RelayActionModel::Report {
                event: EventModel::Node { host: self.labels[c], state: NodeState::Idle },
            },
        )
        &&& self.draining[c] && self.alive[c] && next.alive[c] ==> next.load[c] > 0
        &&& self.alive[c] && !next.alive[c] ==> self.draining[c] && asked_since(
            next.out,
            from + 1,
            RelayActionModel::ToChild { child: owner, message: ToAgentModel::Shutdown },
        ) && asked_since(
            next.out,
            from + 1,
            RelayActionModel::Report {
                event: EventModel::Node { host: self.labels[c], state: NodeState::Lost },
            },
        )
        &&& next.load[c] > 0 || (self.paused[c] && !self.draining[c]) ==> forall|k: int|
            from < k < next.out.len() ==> match #[trigger] next.out[k] {
                RelayActionModel::ToChild { message, .. } => message is Assign,
                RelayActionModel::Report { event } => event matches EventModel::Node { state, .. }
                    && state == NodeState::Working,
                _ => false,
            }
        &&& up || !(exists|x: int| 0 <= x < next.alive.len() && #[trigger] next.alive[x])
    }

    proof fn lemma_terminal(self, task: TaskId, owner: usize, reply: FromAgentModel)
        requires
            self.wf(),
            owner_of(self.inflight, task) == Some(owner),
        ensures
            self.over_on(
                owner,
                reply,
                self.after_terminal(task, reply).0,
                self.after_terminal(task, reply).1,
            ),
            self.after_terminal(task, reply).0.last_activity == self.last_activity,
    {
        self.lemma_freed_wf(task);
        let from = self.out.len() as int;
        let c = owner as int;
        let freed = self.released(task);
        let told = freed.doing(RelayActionModel::ToParent { reply });
        told.law_dispatch_sends_what_waited_longest();
        told.lemma_dispatched_wf();
        let fed = told.dispatched();
        let m = fed.out.len() as int;
        assert forall|k: int| 0 <= k < from implies fed.out[k] == self.out[k] by {
            assert(fed.out.take(from + 1)[k] == told.out[k]);
        }
        assert(fed.out[from] == told.out[from]) by {
            assert(fed.out.take(from + 1)[from] == fed.out[from]);
        }
        assert forall|k: int| from < k < m implies match #[trigger] fed.out[k] {
            RelayActionModel::ToChild { message, .. } => message is Assign,
            RelayActionModel::Report { event } => event matches EventModel::Node { state, .. }
                && state == NodeState::Working,
            _ => false,
        } by {
            assert(handing_out(told, fed, k));
        }
        let next = self.after_terminal(task, reply).0;
        if fed.load[c] == 0 {
            if fed.draining[c] {
                if fed.alive[c] {
                    fed.law_a_kill_shuts_down_and_gives_up(owner);
                    assert forall|k: int| 0 <= k < m implies next.out[k] == fed.out[k] by {
                        assert(next.out.take(m)[k] == next.out[k]);
                    }
                    let stop = RelayActionModel::ToChild {
                        child: owner,
                        message: ToAgentModel::Shutdown,
                    };
                    let lost = RelayActionModel::Report {
                        event: EventModel::Node { host: self.labels[c], state: NodeState::Lost },
                    };
                    assert(next.out[m] == stop);
                    assert(next.out[m + 1] == lost);
                }
            } else if !fed.paused[c] {
                let idle = RelayActionModel::Report {
                    event: EventModel::Node { host: self.labels[c], state: NodeState::Idle },
                };
                assert(next.out[m] == idle);
            }
        }
        assert(next.out.take(from) =~= self.out);
    }

    /// Killing a child that is up shuts it down, reports it lost, hands its tasks to the
    /// others, and says whether any child is left; a child already lost is left alone.
    pub proof fn law_a_kill_shuts_down_and_gives_up(self, child: usize)
        requires
            self.wf(),
            child < self.children(),
        ensures
            ({
                let (next, up) = self.after_kill(child);
                let from = self.out.len() as int;
                if self.alive[child as int] {
                    &&& goes_on(self.out, next.out)
                    &&& from + 1 < next.out.len()
                    &&& next.out[from] == (RelayActionModel::ToChild {
                        child,
                        message: ToAgentModel::Shutdown,
                    })
                    &&& next.out[from + 1] == (RelayActionModel::Report {
                        event: EventModel::Node {
                            host: self.labels[child as int],
                            state: NodeState::Lost,
                        },
                    })
                    &&& forall|k: int|
                        from + 1 < k < next.out.len() ==> !((#[trigger] next.out[k]) is ToParent)
                    &&& next.alive == self.alive.update(child as int, false)
                    &&& next.load[child as int] == 0
                    &&& next.labels == self.labels
                    &&& next.capacity == self.capacity
                    &&& next.active == self.active
                    &&& next.paused == self.paused
                    &&& next.draining == self.draining
                    &&& next.last_activity == self.last_activity
                    &&& up <==> (exists|x: int|
                        0 <= x < next.alive.len() && #[trigger] next.alive[x])
                } else {
                    next == self && up
                }
            }),
    {
        if self.alive[child as int] {
            let from = self.out.len() as int;
            let told = self.doing(
                RelayActionModel::ToChild { child, message: ToAgentModel::Shutdown },
            );
            told.lemma_lost_wf(child);
            let lost = told.lost(child);
            lost.law_dispatch_sends_what_waited_longest();
            lost.lemma_dispatched_wf();
            let next = lost.dispatched();
            assert forall|k: int| 0 <= k < from + 2 implies next.out[k] == lost.out[k] by {
                assert(next.out.take(from + 2)[k] == next.out[k]);
            }
            assert(next.out.take(from) =~= self.out);
            assert forall|k: int| from + 1 < k < next.out.len() implies !((
            #[trigger] next.out[k]) is ToParent) by {
                assert(handing_out(lost, next, k));
            }
            assert(lost.load[child as int] == 0);
            assert(!lost.alive[child as int]);
            lost.law_dispatch_respects_the_operator(child as int);
        }
    }

    /// A completed task of a child goes up with its output unaltered and the path of the
    /// leaf that ran it seen from here; that of a task nobody runs goes nowhere.
    pub proof fn law_a_completion_goes_up(
        self,
        child: usize,
        task_id: TaskId,
        output: Vec<u8>,
        via: String,
        now: u64,
        i: int,
    )
        requires
            self.wf(),
            child < self.children(),
        ensures
            ({
                let event = AgentEvent::Message(
                    child,
                    FromAgent::Completed { task_id, output, via },
                );
                self.after_child(event, now) matches Ok((next, up)) && {
                    &&& next.last_activity == self.last_activity.update(child as int, now)
                        || !(0 <= i < self.inflight.len() && self.inflight[i].task == task_id)
                    &&& 0 <= i < self.inflight.len() && self.inflight[i].task == task_id
                        ==> self.over_on(
                        self.inflight[i].child,
                        FromAgentModel::Completed {
                            task_id,
                            output: output@,
                            via: crate::job::leaf_path(
                                self.labels[self.inflight[i].child as int],
                                via@,
                            ),
                        },
                        next,
                        up,
                    )
                    &&& (forall|j: int|
                        0 <= j < self.inflight.len() ==> (#[trigger] self.inflight[j]).task
                            != task_id) ==> up && next == (RelayModel {
                        last_activity: self.last_activity.update(child as int, now),
                        ..self
                    })
                }
            }),
    {
        let event = AgentEvent::Message(child, FromAgent::Completed { task_id, output, via });
        let heard = self.heard(event, now);
        lemma_owner(self.inflight, task_id);
        if 0 <= i < self.inflight.len() && self.inflight[i].task == task_id {
            let owner = self.lemma_sole_owner(task_id, i);
            let reply = FromAgentModel::Completed {
                task_id,
                output: output@,
                via: self.full_via(task_id, via@),
            };
            heard.lemma_terminal(task_id, owner, reply);
        }
    }

    /// A failed task of a child goes up with its error unaltered, in the same way.
    pub proof fn law_a_failure_goes_up(
        self,
        child: usize,
        task_id: TaskId,
        error: String,
        via: String,
        now: u64,
        i: int,
    )
        requires
            self.wf(),
            child < self.children(),
        ensures
            ({
                let event = AgentEvent::Message(child, FromAgent::Failed { task_id, error, via });
                self.after_child(event, now) matches Ok((next, up)) && {
                    &&& next.last_activity == self.last_activity.update(child as int, now)
                        || !(0 <= i < self.inflight.len() && self.inflight[i].task == task_id)
                    &&& 0 <= i < self.inflight.len() && self.inflight[i].task == task_id
                        ==> self.over_on(
                        self.inflight[i].child,
                        FromAgentModel::Failed {
                            task_id,
                            error: error@,
                            via: crate::job::leaf_path(
                                self.labels[self.inflight[i].child as int],
                                via@,
                            ),
                        },
                        next,
                        up,
                    )
                    &&& (forall|j: int|
                        0 <= j < self.inflight.len() ==> (#[trigger] self.inflight[j]).task
                            != task_id) ==> up && next == (RelayModel {
                        last_activity: self.last_activity.update(child as int, now),
                        ..self
                    })
                }
            }),
    {
        let event = AgentEvent::Message(child, FromAgent::Failed { task_id, error, via });
        let heard = self.heard(event, now);
        lemma_owner(self.inflight, task_id);
        if 0 <= i < self.inflight.len() && self.inflight[i].task == task_id {
            let owner = self.lemma_sole_owner(task_id, i);
            let reply = FromAgentModel::Failed {
                task_id,
                error: error@,
                via: self.full_via(task_id, via@),
            };
            heard.lemma_terminal(task_id, owner, reply);
        }
    }

    proof fn lemma_sole_owner(self, task: TaskId, i: int) -> (owner: usize)
        requires
            self.wf(),
            0 <= i < self.inflight.len(),
            self.inflight[i].task == task,
        ensures
            owner == self.inflight[i].child,
            owner_of(self.inflight, task) == Some(owner),
            owner < self.children(),
    {
        lemma_owner(self.inflight, task);
        assert(self.inflight[i].task == task);
        let owner = owner_of(self.inflight, task)->0;
        let j = choose|j: int|
            0 <= j < self.inflight.len() && (#[trigger] self.inflight[j]).task == task
                && self.inflight[j].child == owner;
        if i < j {
            assert(self.inflight[i].task != self.inflight[j].task);
        } else if j < i {
            assert(self.inflight[j].task != self.inflight[i].task);
        }
        owner
    }

    /// What a child says besides outcomes: that a task started goes up unaltered, what it
    /// observed goes up under its name, a sign of life is noted, and a handshake message
    /// ends the relay. Each is noted as heard now and changes nothing else.
    pub proof fn law_other_words_of_a_child(
        self,
        child: usize,
        task_id: TaskId,
        event: Event,
        slots: usize,
        children: Vec<crate::protocol::ChildAd>,
        now: u64,
    )
        ensures
            ({
                let last_activity = self.last_activity.update(child as int, now);
                &&& self.after_child(
                    AgentEvent::Message(child, FromAgent::Started { task_id }),
                    now,
                ) == Ok::<(RelayModel, bool), RelayError>(
                    (
                        RelayModel {
                            last_activity,
                            out: self.out.push(
                                RelayActionModel::ToParent {
                                    reply: FromAgentModel::Started { task_id },
                                },
                            ),
                            ..self
                        },
                        true,
                    ),
                )
                &&& self.after_child(AgentEvent::Message(child, FromAgent::Observe(event)), now)
                    == Ok::<(RelayModel, bool), RelayError>(
                    (
                        RelayModel {
                            last_activity,
                            out: self.out.push(
                                RelayActionModel::ToParent {
                                    reply: FromAgentModel::Observe {
                                        event: event@.prefixed(self.labels[child as int]),
                                    },
                                },
                            ),
                            ..self
                        },
                        true,
                    ),
                )
                &&& self.after_child(AgentEvent::Message(child, FromAgent::Pong), now) == Ok::<
                    (RelayModel, bool),
                    RelayError,
                >((RelayModel { last_activity, ..self }, true))
                &&& self.after_child(AgentEvent::Message(child, FromAgent::Ready { slots }), now)
                    == Err::<(RelayModel, bool), RelayError>(RelayError::RepeatedHandshake)
                &&& self.after_child(
                    AgentEvent::Message(child, FromAgent::Discovered { children }),
                    now,
                ) == Err::<(RelayModel, bool), RelayError>(RelayError::RepeatedHandshake)
            }),
    {
    }

    /// A child's new capacity holds for that child, and the parent is told how many slots
    /// the active children now have together.
    pub proof fn law_a_new_capacity_goes_up(self, child: usize, slots: usize, now: u64)
        requires
            self.wf(),
            child < self.children(),
            self.fits(AgentEvent::Message(child, FromAgent::Capacity { slots })),
        ensures
            self.after_child(
                AgentEvent::Message(child, FromAgent::Capacity { slots }),
                now,
            ) matches Ok((next, up)) && {
                &&& up
                &&& next.capacity == self.capacity.update(child as int, slots)
                &&& next.alive == self.alive
                &&& next.active == self.active
                &&& next.last_activity == self.last_activity.update(child as int, now)
                &&& goes_on(self.out, next.out)
                &&& self.out.len() < next.out.len()
                &&& next.out[self.out.len() as int] == (RelayActionModel::ToParent {
                    reply: FromAgentModel::Capacity { slots: next.slots() as usize },
                })
            },
    {
        let event = AgentEvent::Message(child, FromAgent::Capacity { slots });
        let heard = self.heard(event, now);
        let more = RelayModel { capacity: self.capacity.update(child as int, slots), ..heard };
        let told = more.advertising();
        told.law_dispatch_sends_what_waited_longest();
        let next = told.dispatched();
        let from = self.out.len() as int;
        assert forall|k: int| 0 <= k < from + 1 implies next.out[k] == told.out[k] by {
            assert(next.out.take(from + 1)[k] == next.out[k]);
        }
        assert(next.out.take(from) =~= self.out);
    }

    /// A lost child is reported lost first and runs nothing any more; the relay goes on
    /// as long as any child is up.
    pub proof fn law_a_lost_child_is_told(self, child: usize, now: u64)
        requires
            self.wf(),
            child < self.children(),
        ensures
            self.after_child(AgentEvent::Lost(child), now) matches Ok((next, up)) && {
                &&& goes_on(self.out, next.out)
                &&& self.out.len() < next.out.len()
                &&& next.out[self.out.len() as int] == (RelayActionModel::Report {
                    event: EventModel::Node {
                        host: self.labels[child as int],
                        state: NodeState::Lost,
                    },
                })
                &&& next.alive == self.alive.update(child as int, false)
                &&& next.load[child as int] == 0
                &&& forall|i: int|
                    0 <= i < next.inflight.len() ==> (#[trigger] next.inflight[i]).child != child
                &&& up <==> (exists|x: int| 0 <= x < next.alive.len() && #[trigger] next.alive[x])
            },
    {
        self.lemma_lost_wf(child);
        let lost = self.lost(child);
        lost.law_dispatch_sends_what_waited_longest();
        lost.lemma_dispatched_wf();
        let next = lost.dispatched();
        let from = self.out.len() as int;
        assert forall|k: int| 0 <= k < from + 1 implies next.out[k] == lost.out[k] by {
            assert(next.out.take(from + 1)[k] == next.out[k]);
        }
        assert(next.out.take(from) =~= self.out);
        assert(!lost.alive[child as int]);
        lost.law_dispatch_respects_the_operator(child as int);
        assert(next.load[child as int] == 0);
        assert forall|i: int| 0 <= i < next.inflight.len() implies (
        #[trigger] next.inflight[i]).child != child by {
            if next.inflight[i].child == child {
                lemma_runs_some(next.inflight, i);
                assert(runs(next.inflight, child) <= next.load[child as int]);
            }
        }
    }
}

proof fn lemma_runs_some(inflight: Seq<FlightModel>, i: int)
    requires
        0 <= i < inflight.len(),
    ensures
        runs(inflight, inflight[i].child) > 0,
    decreases inflight.len(),
{
    if i < inflight.len() - 1 {
        lemma_runs_some(inflight.drop_last(), i);
        assert(inflight.drop_last()[i] == inflight[i]);
    }
}

/// The slots a relay has are those of its active children, each counted once: none at
/// all add up to zero; one more active child adds its own; one that is not active adds
/// nothing.
pub proof fn law_slots_add_up(capacity: Seq<usize>, active: Seq<bool>, more: usize, on: bool, n: int)
    requires
        0 <= n,
        n == capacity.len(),
        n == active.len(),
    ensures
        active_below(Seq::empty(), Seq::empty(), 0) == 0,
        active_below(capacity.push(more), active.push(on), n + 1) == active_below(
            capacity,
            active,
            n,
        ) + (if on {
            more as int
        } else {
            0int
        }),
{
    lemma_active_prefix(capacity, active, more, on, n);
}

proof fn lemma_active_prefix(
    capacity: Seq<usize>,
    active: Seq<bool>,
    more: usize,
    on: bool,
    n: int,
)
    requires
        0 <= n <= capacity.len(),
        capacity.len() == active.len(),
    ensures
        active_below(capacity.push(more), active.push(on), n) == active_below(capacity, active, n),
    decreases n,
{
    if n > 0 {
        lemma_active_prefix(capacity, active, more, on, n - 1);
    }
}

/// A label is found at the first place that holds it, and nowhere if none does.
pub proof fn law_the_first_label_is_found(labels: Seq<Seq<char>>, name: Seq<char>, from: int)
    requires
        0 <= from <= labels.len(),
    ensures
        ({
            let at = position_from(labels, name, from);
            &&& from <= at <= labels.len()
            &&& at < labels.len() ==> labels[at] == name
            &&& forall|i: int| from <= i < at ==> (#[trigger] labels[i]) != name
        }),
    decreases labels.len() - from,
{
    if from < labels.len() && labels[from] != name {
        law_the_first_label_is_found(labels, name, from + 1);
    }
}

impl RelayModel {
    /// A control addressed to a node below a child goes on to that child, with the rest
    /// of the path and the very action; one to a child that is lost or unknown does
    /// nothing.
    pub proof fn law_a_control_finds_its_node(
        self,
        c: int,
        label: Seq<char>,
        rest: Seq<char>,
        action: ControlAction,
    )
        requires
            self.wf(),
            !label.contains('/'),
            0 <= c <= self.children(),
            c < self.children() ==> self.labels[c] == label,
            forall|i: int| 0 <= i < c ==> (#[trigger] self.labels[i]) != label,
            rest.len() > 0,
        ensures
            ({
                let deeper = self.after_control(label + "/"@ + rest, action);
                let here = self.after_control(label, action);
                if c < self.children() && self.alive[c] {
                    &&& deeper == (
                        RelayModel {
                            out: self.out.push(
                                RelayActionModel::ToChild {
                                    child: c as usize,
                                    message: ToAgentModel::Control { target: rest, action },
                                },
                            ),
                            ..self
                        },
                        true,
                    )
                    &&& here == self.after_action(c as usize, action)
                } else {
                    deeper == (self, true) && here == (self, true)
                }
            }),
    {
        law_routing_undoes_joining(label, rest);
        law_routing_undoes_joining(label, Seq::empty());
        assert(joined_label(label, rest) == label + "/"@ + rest);
        assert(joined_label(label, Seq::empty()) == label);
        lemma_position(self.labels, label, 0, c);
    }

    /// Pausing a child keeps new tasks from it and says so; nothing else changes. A child
    /// that is paused or draining stays as it is.
    pub proof fn law_pausing_a_child(self, child: usize)
        requires
            self.wf(),
            child < self.children(),
        ensures
            ({
                let (next, up) = self.after_action(child, ControlAction::Pause);
                &&& up
                &&& if self.paused[child as int] || self.draining[child as int] {
                    next == self
                } else {
                    next == (RelayModel {
                        paused: self.paused.update(child as int, true),
                        out: self.out.push(
                            RelayActionModel::Report {
                                event: EventModel::Node {
                                    host: self.labels[child as int],
                                    state: NodeState::Paused,
                                },
                            },
                        ),
                        ..self
                    })
                }
            }),
    {
    }

    /// Resuming a paused child lets it take tasks at once and then says whether it works
    /// or is idle; a child that is not paused stays as it is.
    pub proof fn law_resuming_a_child(self, child: usize)
        requires
            self.wf(),
            child < self.children(),
        ensures
            ({
                let (next, up) = self.after_action(child, ControlAction::Resume);
                &&& up
                &&& if !self.paused[child as int] {
                    next == self
                } else {
                    &&& next.paused == self.paused.update(child as int, false)
                    &&& next.alive == self.alive
                    &&& next.draining == self.draining
                    &&& next.active == self.active
                    &&& goes_on(self.out, next.out)
                    &&& self.out.len() < next.out.len()
                    &&& next.out.last() == (RelayActionModel::Report {
                        event: EventModel::Node {
                            host: self.labels[child as int],
                            state: if next.load[child as int] > 0 {
                                NodeState::Working
                            } else {
                                NodeState::Idle
                            },
                        },
                    })
                    &&& next.pending.len() == 0 || !(next.active[child as int]
                        && next.alive[child as int] && !next.draining[child as int]
                        && next.load[child as int] < next.capacity[child as int])
                }
            }),
    {
        if self.paused[child as int] {
            let resumed = RelayModel { paused: self.paused.update(child as int, false), ..self };
            resumed.law_dispatch_sends_what_waited_longest();
            resumed.law_dispatch_is_work_conserving();
            let fed = resumed.dispatched();
            let (next, up) = self.after_action(child, ControlAction::Resume);
            assert(next.out.take(self.out.len() as int) =~= self.out) by {
                assert forall|k: int| 0 <= k < self.out.len() implies next.out[k]
                    == self.out[k] by {
                    assert(fed.out.take(self.out.len() as int)[k] == fed.out[k]);
                }
            }
            if fed.pending.len() > 0 {
                assert(!fed.free(child as int));
            }
        }
    }

    /// Killing a child at once, or after its tasks when it has none, kills it; killing it
    /// after its tasks while it has some lets it finish: it takes no more, is reported
    /// draining, and is sent nothing.
    pub proof fn law_killing_a_child(self, child: usize)
        requires
            self.wf(),
            child < self.children(),
        ensures
            self.after_action(child, ControlAction::Kill { mode: KillMode::Now })
                == self.after_kill(child),
            ({
                let (next, up) = self.after_action(
                    child,
                    ControlAction::Kill { mode: KillMode::AfterCurrent },
                );
                if self.load[child as int] == 0 {
                    (next, up) == self.after_kill(child)
                } else if self.draining[child as int] {
                    next == self && up
                } else {
                    up && next == (RelayModel {
                        draining: self.draining.update(child as int, true),
                        out: self.out.push(
                            RelayActionModel::Report {
                                event: EventModel::Node {
                                    host: self.labels[child as int],
                                    state: NodeState::Draining,
                                },
                            },
                        ),
                        ..self
                    })
                }
            }),
    {
    }

    /// Shutting a relay down says goodbye to each child that is up: it is reported done
    /// and then told to shut down, one child after the other; a lost one gets nothing.
    pub proof fn law_a_relay_ends_with_goodbyes(self, n: int)
        requires
            self.wf(),
            0 <= n <= self.children(),
        ensures
            ({
                let next = self.shut_below(n);
                let from = self.out.len() as int;
                &&& next == (RelayModel { out: next.out, ..self })
                &&& goes_on(self.out, next.out)
                &&& forall|c: int|
                    0 <= c < n && #[trigger] self.alive[c] ==> asked_since(
                        next.out,
                        from,
                        RelayActionModel::ToChild {
                            child: c as usize,
                            message: ToAgentModel::Shutdown,
                        },
                    ) && asked_since(
                        next.out,
                        from,
                        RelayActionModel::Report {
                            event: EventModel::Node {
                                host: self.labels[c],
                                state: NodeState::Done,
                            },
                        },
                    )
                &&& forall|k: int|
                    from <= k < next.out.len() ==> match #[trigger] next.out[k] {
                        RelayActionModel::ToChild { child, message } => message
                            == ToAgentModel::Shutdown && child < n && self.alive[child as int],
                        RelayActionModel::Report { event } => exists|c: int|
                            0 <= c < n && self.alive[c] && #[trigger] self.labels[c]
                                == event->Node_host && event is Node && event->Node_state
                                == NodeState::Done,
                        _ => false,
                    }
            }),
        decreases n,
    {
        let from = self.out.len() as int;
        if n == 0 {
            assert(self.out.take(from) =~= self.out);
        } else {
            self.law_a_relay_ends_with_goodbyes(n - 1);
            let before = self.shut_below(n - 1);
            let next = self.shut_below(n);
            let m = before.out.len() as int;
            assert forall|k: int| 0 <= k < m implies next.out[k] == before.out[k] by {}
            assert(next.out.take(from) =~= self.out) by {
                assert forall|k: int| 0 <= k < from implies next.out[k] == self.out[k] by {
                    assert(before.out.take(from)[k] == before.out[k]);
                }
            }
            assert forall|c: int| 0 <= c < n && #[trigger] self.alive[c] implies asked_since(
                next.out,
                from,
                RelayActionModel::ToChild { child: c as usize, message: ToAgentModel::Shutdown },
            ) && asked_since(
                next.out,
                from,
                RelayActionModel::Report {
                    event: EventModel::Node { host: self.labels[c], state: NodeState::Done },
                },
            ) by {
                let stop = RelayActionModel::ToChild {
                    child: c as usize,
                    message: ToAgentModel::Shutdown,
                };
                let done = RelayActionModel::Report {
                    event: EventModel::Node { host: self.labels[c], state: NodeState::Done },
                };
                if c < n - 1 {
                    let k = choose|k: int|
                        from <= k < before.out.len() && #[trigger] before.out[k] == stop;
                    assert(next.out[k] == stop);
                    let j = choose|j: int|
                        from <= j < before.out.len() && #[trigger] before.out[j] == done;
                    assert(next.out[j] == done);
                } else {
                    assert(next.out[m] == done);
                    assert(next.out[m + 1] == stop);
                }
            }
            assert forall|k: int| from <= k < next.out.len() implies match #[trigger] next.out[k] {
                RelayActionModel::ToChild { child, message } => message == ToAgentModel::Shutdown
                    && child < n && self.alive[child as int],
                RelayActionModel::Report { event } => exists|c: int|
                    0 <= c < n && self.alive[c] && #[trigger] self.labels[c] == event->Node_host
                        && event is Node && event->Node_state == NodeState::Done,
                _ => false,
            } by {
                if k < m {
                    assert(next.out[k] == before.out[k]);
                    if let RelayActionModel::Report { event } = before.out[k] {
                        let c = choose|c: int|
                            0 <= c < n - 1 && self.alive[c] && #[trigger] self.labels[c]
                                == event->Node_host && event is Node && event->Node_state
                                == NodeState::Done;
                        assert(self.labels[c] == event->Node_host);
                    }
                } else if k == m {
                    assert(self.labels[n - 1] == next.out[k]->event->Node_host);
                }
            }
        }
    }
}

proof fn lemma_position(labels: Seq<Seq<char>>, name: Seq<char>, from: int, at: int)
    requires
        0 <= from <= at <= labels.len(),
        at < labels.len() ==> labels[at] == name,
        forall|i: int| from <= i < at ==> (#[trigger] labels[i]) != name,
    ensures
        position_from(labels, name, from) == at,
    decreases at - from,
{
    if from < at {
        assert(labels[from] != name);
        lemma_position(labels, name, from + 1, at);
    }
}

/// What a relay stands for holds all that it holds: the tasks that wait and run with their
/// inputs whole, and what is to be sent, each in its order.
pub proof fn law_a_relay_keeps_its_contents(relay: Relay, i: int)
    ensures
        relay@.labels.len() == relay.labels@.len(),
        0 <= i < relay.labels@.len() ==> relay@.labels[i] == relay.labels@[i]@,
        relay@.pending.len() == relay.pending@.len(),
        0 <= i < relay.pending@.len() ==> relay@.pending[i].task == relay.pending@[i].task
            && relay@.pending[i].payload == relay.pending@[i].payload@,
        relay@.inflight.len() == relay.inflight@.len(),
        0 <= i < relay.inflight@.len() ==> relay@.inflight[i].task == relay.inflight@[i].task
            && relay@.inflight[i].child == relay.inflight@[i].child && relay@.inflight[i].payload
            == relay.inflight@[i].payload@,
        relay@.out.len() == relay.out@.len(),
        0 <= i < relay.out@.len() ==> relay@.out[i] == relay.out@[i]@,
        relay@.capacity == relay.capacity@,
        relay@.active == relay.active@,
        relay@.alive == relay.alive@,
        relay@.paused == relay.paused@,
        relay@.draining == relay.draining@,
        relay@.load == relay.load@,
        relay@.last_activity == relay.last_activity@,
{
}

/// What an action stands for is the very message to the very child or to the parent, the
/// very report, or the very child given up.
pub proof fn law_relay_actions_keep_their_contents(
    child: usize,
    message: ToAgent,
    reply: FromAgent,
    event: Event,
)
    ensures
        (RelayAction::ToChild { child, message })@ == (RelayActionModel::ToChild {
            child,
            message: message@,
        }),
        RelayAction::ToParent(reply)@ == (RelayActionModel::ToParent { reply: reply@ }),
        RelayAction::Report(event)@ == (RelayActionModel::Report { event: event@ }),
        (RelayAction::Abandon { child })@ == (RelayActionModel::Abandon { child }),
{
}

/// What holds of every relay between two inputs, said outright: no task runs twice, every
/// task that runs has a child, and a lost child has none.
pub proof fn law_what_always_holds_of_a_relay(m: RelayModel, i: int, j: int)
    requires
        m.wf(),
        0 <= i < j < m.inflight.len(),
    ensures
        m.inflight[i].task != m.inflight[j].task,
        m.inflight[i].child < m.labels.len(),
        m.alive[m.inflight[i].child as int],
        m.load[m.inflight[i].child as int] > 0,
{
    lemma_runs_some(m.inflight, i);
    let c = m.inflight[i].child;
    assert(runs(m.inflight, c) <= m.load[c as int]);
}

/// When a child is lost, its tasks wait again before all others, in the order they were
/// handed out, each with its own input.
pub proof fn law_orphans_wait_first(inflight: Seq<FlightModel>, flight: FlightModel, child: usize)
    ensures
        orphans(Seq::empty(), child).len() == 0,
        flight.child == child ==> orphans(inflight.push(flight), child) == orphans(
            inflight,
            child,
        ).push(WaitingModel { task: flight.task, payload: flight.payload }),
        flight.child != child ==> orphans(inflight.push(flight), child) == orphans(inflight, child),
{
    assert(inflight.push(flight).drop_last() =~= inflight);
}

impl RelayModel {
    /// A lost child's tasks come before those that were waiting, whose order stays.
    pub proof fn law_a_loss_keeps_the_order_of_waiting(self, child: usize)
        ensures
            ({
                let next = self.lost(child);
                let again = orphans(self.inflight, child);
                &&& next.pending.len() == again.len() + self.pending.len()
                &&& next.pending.take(again.len() as int) == again
                &&& next.pending.skip(again.len() as int) == self.pending
                &&& next.capacity == self.capacity
                &&& next.active == self.active
                &&& next.paused == self.paused
                &&& next.draining == self.draining
                &&& next.labels == self.labels
                &&& next.last_activity == self.last_activity
            }),
    {
        let next = self.lost(child);
        let again = orphans(self.inflight, child);
        assert(next.pending.take(again.len() as int) =~= again);
        assert(next.pending.skip(again.len() as int) =~= self.pending);
    }

    /// The slots told to the parent are those of the active children together.
    pub proof fn law_slots_are_those_of_active_children(self)
        ensures
            self.slots() == active_below(self.capacity, self.active, self.labels.len() as int),
    {
    }
}

proof fn lemma_total_update(load: Seq<usize>, c: int, value: usize, n: int)
    requires
        0 <= c < load.len(),
        0 <= n <= load.len(),
    ensures
        total_below(load.update(c, value), n) == total_below(load, n) + (if c < n {
            value - load[c]
        } else {
            0int
        }),
    decreases n,
{
    if n > 0 {
        lemma_total_update(load, c, value, n - 1);
    }
}

impl RelayModel {
    /// Every task handed out takes up one slot: what the children run together grows by
    /// exactly the number of tasks that no longer wait.
    pub proof fn law_every_task_takes_a_slot(self)
        requires
            self.wf(),
        ensures
            total_below(self.dispatched().load, self.labels.len() as int) == total_below(
                self.load,
                self.labels.len() as int,
            ) + self.pending.len() - self.dispatched().pending.len(),
        decreases self.pending.len(),
    {
        self.lemma_first_free(0);
        if self.pending.len() > 0 && self.first_free(0) < self.children() {
            let c = self.first_free(0) as usize;
            self.lemma_handed_wf(c);
            let next = self.handed(c);
            next.law_every_task_takes_a_slot();
            lemma_total_update(
                self.load,
                c as int,
                (self.load[c as int] + 1) as usize,
                self.children() as int,
            );
            assert(self.load[c as int] < self.capacity[c as int]);
        }
    }

    /// A waiting task goes to the first child that may take one.
    pub proof fn law_the_first_free_child_takes_it(self, c: int)
        requires
            self.wf(),
            self.pending.len() > 0,
            0 <= c < self.labels.len(),
            self.active[c] && self.alive[c] && !self.paused[c] && !self.draining[c] && self.load[c]
                < self.capacity[c],
            forall|d: int|
                0 <= d < c ==> !(#[trigger] self.active[d] && self.alive[d] && !self.paused[d]
                    && !self.draining[d] && self.load[d] < self.capacity[d]),
        ensures
            self.out.len() < self.dispatched().out.len(),
            self.dispatched().out[self.out.len() as int] == (RelayActionModel::ToChild {
                child: c as usize,
                message: ToAgentModel::Assign {
                    task_id: self.pending[0].task,
                    payload: self.pending[0].payload,
                },
            }),
    {
        self.lemma_first_free(0);
        let f = self.first_free(0);
        assert(f == c) by {
            assert(self.free(c));
            if f < c {
                assert(self.active[f] || !self.active[f]);
            }
        }
        let next = self.handed(c as usize);
        self.lemma_handed_wf(c as usize);
        next.law_dispatch_sends_what_waited_longest();
        let end = next.dispatched();
        assert(self.dispatched() == end);
        let from = self.out.len() as int;
        assert(end.out.take(next.out.len() as int)[from] == end.out[from]);
    }

    /// An outcome gives its child one slot back: where nothing waits, the child runs one task
    /// fewer, no other child runs more or less, and the task runs nowhere any more.
    pub proof fn law_an_outcome_gives_a_slot_back(self, task: TaskId, i: int, reply: FromAgentModel)
        requires
            self.wf(),
            0 <= i < self.inflight.len(),
            self.inflight[i].task == task,
            self.pending.len() == 0,
        ensures
            ({
                let next = self.after_terminal(task, reply).0;
                let c = self.inflight[i].child as int;
                &&& next.load == self.load.update(c, (self.load[c] - 1) as usize)
                &&& self.load[c] > 0
                &&& forall|j: int|
                    0 <= j < next.inflight.len() ==> (#[trigger] next.inflight[j]).task != task
            }),
    {
        let owner = self.lemma_sole_owner(task, i);
        self.lemma_freed_wf(task);
        let freed = self.released(task).doing(RelayActionModel::ToParent { reply });
        assert(freed.dispatched() == freed);
        let kept = without_task(self.inflight, task);
        lemma_without_task(self.inflight, task);
        assert forall|j: int| 0 <= j < kept.len() implies (#[trigger] kept[j]).task != task by {
            assert(kept.contains(kept[j]));
        }
        let c = owner as int;
        if freed.load[c] == 0 && freed.draining[c] && freed.alive[c] {
            let told = freed.doing(
                RelayActionModel::ToChild { child: owner, message: ToAgentModel::Shutdown },
            );
            let lost = told.lost(owner);
            lemma_without_child(kept, owner);
            assert(runs(kept, owner) == 0) by {
                assert(freed.wf());
                assert(runs(freed.inflight, owner) <= freed.load[c]);
            }
            lemma_no_orphans(kept, owner);
            assert(lost.pending =~= Seq::empty());
            assert(lost.dispatched() == lost);
            assert(lost.load =~= freed.load);
            assert forall|j: int| 0 <= j < lost.inflight.len() implies (
            #[trigger] lost.inflight[j]).task != task by {
                assert(lost.inflight.contains(lost.inflight[j]));
                let m = kept.index_of(lost.inflight[j]);
                assert(kept[m].task != task);
            }
        }
    }
}

proof fn lemma_no_orphans(inflight: Seq<FlightModel>, child: usize)
    requires
        runs(inflight, child) == 0,
    ensures
        orphans(inflight, child).len() == 0,
    decreases inflight.len(),
{
    if inflight.len() > 0 {
        lemma_no_orphans(inflight.drop_last(), child);
    }
}

} // verus!
