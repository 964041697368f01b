//! The scheduling state of one run over a set of agents.
//!
//! Agents pull: each is kept filled to its advertised capacity from the pending
//! pool. A lost agent's tasks go back to the pool, a repeated result is dropped,
//! and with speculation an idle agent may race a straggler. Nothing here talks to
//! an agent: what is to be sent or reported is appended to an outbox.
use std::collections::VecDeque;

use vstd::prelude::*;

use crate::observability::{join_label, joined_label, Event, EventModel, NodeState};
use crate::protocol::{ChildAd, FromAgent, TaskId, ToAgent, ToAgentModel};
use crate::text::texts;

verus! {

/// What an agent's reader hands to the run.
#[derive(Debug)]
pub enum AgentEvent {
    /// The agent sent a message.
    Message(usize, FromAgent),
    /// The agent's connection ended or failed.
    Lost(usize),
}

/// What the run asks its surroundings to do.
#[derive(Debug, Clone, PartialEq, Eq)]
pub enum JobAction {
    /// Send a message to an agent.
    Send {
        /// The agent.
        agent: usize,
        /// The message.
        message: ToAgent,
    },
    /// Report an observability event.
    Emit(Event),
}

/// A [`JobAction`] as a mathematical value.
pub enum ActionModel {
    Send { agent: usize, message: ToAgentModel },
    Emit { event: EventModel },
}

impl View for JobAction {
    type V = ActionModel;

    open spec fn view(&self) -> ActionModel {
        match *self {
            JobAction::Send { agent, message } => ActionModel::Send { agent, message: message@ },
            JobAction::Emit(event) => ActionModel::Emit { event: event@ },
        }
    }
}

/// Each action in turn as a mathematical value.
pub open spec fn actions(v: Seq<JobAction>) -> Seq<ActionModel> {
    Seq::new(v.len(), |i: int| v[i]@)
}

/// Each payload in turn as a byte sequence.
pub open spec fn bytes(v: Seq<Vec<u8>>) -> Seq<Seq<u8>> {
    Seq::new(v.len(), |i: int| v[i]@)
}

/// Why a run was abandoned.
#[derive(Debug, Clone, Copy, PartialEq, Eq, Structural)]
pub enum JobError {
    /// An agent sent a handshake message after the handshake.
    RepeatedHandshake,
    /// Every agent was lost and no node could join before the job completed.
    AllLost,
}

/// One task's outcome.
pub type Outcome = Result<Vec<u8>, String>;

/// Mutable scheduling state for one run. Task `i` is the `i`-th input.
#[derive(Debug)]
pub struct Job {
    /// Each agent's label.
    pub labels: Vec<String>,
    /// How many tasks each agent is running.
    pub in_flight: Vec<usize>,
    /// How many tasks each agent may run at once.
    pub capacity: Vec<usize>,
    /// Per agent, the children it holds back as redundant paths.
    pub standbys: Vec<Vec<ChildAd>>,
    /// Whether each agent's connection is up.
    pub alive: Vec<bool>,
    /// Tasks waiting for an agent.
    pub pending: VecDeque<usize>,
    /// The agents running each task. Usually one; a raced straggler has two.
    pub assigned: Vec<Vec<usize>>,
    /// Each task's outcome, once known.
    pub results: Vec<Option<Outcome>>,
    /// How many tasks have no outcome yet.
    pub remaining: usize,
    /// Each task's serialized input.
    pub payloads: Vec<Vec<u8>>,
    /// Whether an idle agent may race a straggler.
    pub speculative: bool,
    /// What is to be sent and reported, in order.
    pub out: Vec<JobAction>,
}

/// A [`Job`] as a mathematical value.
pub struct JobModel {
    pub labels: Seq<Seq<char>>,
    pub in_flight: Seq<usize>,
    pub capacity: Seq<usize>,
    pub standbys: Seq<Seq<ChildAd>>,
    pub alive: Seq<bool>,
    pub pending: Seq<usize>,
    pub assigned: Seq<Seq<usize>>,
    pub results: Seq<Option<Outcome>>,
    pub remaining: nat,
    pub payloads: Seq<Seq<u8>>,
    pub speculative: bool,
    pub out: Seq<ActionModel>,
}

/// Each inner vector in turn as a sequence.
pub open spec fn rows<T>(v: Seq<Vec<T>>) -> Seq<Seq<T>> {
    Seq::new(v.len(), |i: int| v[i]@)
}

impl View for Job {
    type V = JobModel;

    open spec fn view(&self) -> JobModel {
        JobModel {
            labels: texts(self.labels@),
            in_flight: self.in_flight@,
            capacity: self.capacity@,
            standbys: rows(self.standbys@),
            alive: self.alive@,
            pending: self.pending@,
            assigned: rows(self.assigned@),
            results: self.results@,
            remaining: self.remaining as nat,
            payloads: bytes(self.payloads@),
            speculative: self.speculative,
            out: actions(self.out@),
        }
    }
}

/// How many of the first `n` tasks `agent` is running.
pub open spec fn load_below(assigned: Seq<Seq<usize>>, agent: usize, n: int) -> nat
    decreases n,
{
    if n <= 0 {
        0
    } else {
        load_below(assigned, agent, n - 1) + (if assigned[n - 1].contains(agent) {
            1nat
        } else {
            0nat
        })
    }
}

/// How many tasks `agent` is running.
pub open spec fn load(assigned: Seq<Seq<usize>>, agent: usize) -> nat {
    load_below(assigned, agent, assigned.len() as int)
}

/// How many of the first `n` tasks have no outcome.
pub open spec fn open_below(results: Seq<Option<Outcome>>, n: int) -> nat
    decreases n,
{
    if n <= 0 {
        0
    } else {
        open_below(results, n - 1) + (if results[n - 1] is None {
            1nat
        } else {
            0nat
        })
    }
}

/// The agents of `runners` other than `agent`, in order.
pub open spec fn without(runners: Seq<usize>, agent: usize) -> Seq<usize>
    decreases runners.len(),
{
    if runners.len() == 0 {
        runners
    } else {
        let rest = without(runners.drop_last(), agent);
        if runners.last() == agent {
            rest
        } else {
            rest.push(runners.last())
        }
    }
}

impl JobModel {
    /// How many agents the run knows, lost ones among them.
    pub open spec fn agents(self) -> nat {
        self.labels.len()
    }

    /// How many tasks the run has.
    pub open spec fn tasks(self) -> nat {
        self.payloads.len()
    }

    /// Whether `task` is running somewhere.
    pub open spec fn running(self, task: int) -> bool {
        0 <= task < self.assigned.len() && self.assigned[task].len() > 0
    }

    /// The per-agent and per-task sequences agree in length.
    pub open spec fn shaped(self) -> bool {
        &&& self.in_flight.len() == self.agents()
        &&& self.capacity.len() == self.agents()
        &&& self.standbys.len() == self.agents()
        &&& self.alive.len() == self.agents()
        &&& self.assigned.len() == self.tasks()
        &&& self.results.len() == self.tasks()
        &&& self.tasks() <= usize::MAX
        &&& self.agents() <= usize::MAX
    }

    /// Every task is in exactly one place: waiting, running, or resolved.
    pub open spec fn partitioned(self) -> bool {
        &&& self.pending.no_duplicates()
        &&& forall|j: int|
            0 <= j < self.pending.len() ==> (#[trigger] self.pending[j]) < self.tasks()
                && self.results[self.pending[j] as int] is None
                && self.assigned[self.pending[j] as int].len() == 0
        &&& forall|i: int|
            0 <= i < self.tasks() && (#[trigger] self.assigned[i]).len() > 0 ==> self.results[i] is None
        &&& forall|i: int|
            0 <= i < self.tasks() && (#[trigger] self.results[i]) is None && self.assigned[i].len()
                == 0 ==> self.pending.contains(i as usize)
    }

    /// A task runs on at most two agents, different ones, all of them alive.
    pub open spec fn well_placed(self) -> bool {
        forall|i: int|
            0 <= i < self.tasks() ==> (#[trigger] self.assigned[i]).len() <= 2
                && self.assigned[i].no_duplicates() && forall|k: int|
                0 <= k < self.assigned[i].len() ==> (#[trigger] self.assigned[i][k])
                    < self.agents() && self.alive[self.assigned[i][k] as int]
    }

    /// The counters say what they count.
    pub open spec fn counted(self) -> bool {
        &&& forall|a: int|
            0 <= a < self.agents() ==> (#[trigger] self.in_flight[a]) as nat == load(
                self.assigned,
                a as usize,
            )
        &&& self.remaining == open_below(self.results, self.tasks() as int)
    }

    /// What holds of a run between any two events.
    pub open spec fn wf(self) -> bool {
        &&& self.shaped()
        &&& self.partitioned()
        &&& self.well_placed()
        &&& self.counted()
    }

    /// The run after an action is appended to the outbox.
    pub open spec fn doing(self, action: ActionModel) -> JobModel {
        JobModel { out: self.out.push(action), ..self }
    }

    /// The run after a node-state report about `agent`.
    pub open spec fn reporting(self, agent: usize, state: NodeState) -> JobModel {
        self.doing(
            ActionModel::Emit {
                event: EventModel::Node { host: self.labels[agent as int], state },
            },
        )
    }

    /// The message that hands out `task`.
    pub open spec fn assign_of(self, agent: usize, task: usize) -> ActionModel {
        ActionModel::Send {
            agent,
            message: ToAgentModel::Assign {
                task_id: task as u64,
                payload: self.payloads[task as int],
            },
        }
    }

    /// How many more tasks `agent` may take.
    pub open spec fn free_slots(self, agent: usize) -> int {
        if self.alive[agent as int] && self.in_flight[agent as int] < self.capacity[agent as int] {
            self.capacity[agent as int] - self.in_flight[agent as int]
        } else {
            0
        }
    }

    /// The run after the first `k` pending tasks are handed to `agent`.
    pub open spec fn handed(self, agent: usize, k: int) -> JobModel {
        JobModel {
            in_flight: self.in_flight.update(
                agent as int,
                (self.in_flight[agent as int] + k) as usize,
            ),
            pending: self.pending.skip(k),
            assigned: Seq::new(
                self.assigned.len(),
                |i: int|
                    if self.pending.take(k).contains(i as usize) {
                        seq![agent]
                    } else {
                        self.assigned[i]
                    },
            ),
            out: self.out + Seq::new(k as nat, |j: int| self.assign_of(agent, self.pending[j])),
            ..self
        }
    }

    /// The run after `agent` is handed pending tasks up to its capacity.
    pub open spec fn topped_up(self, agent: usize) -> JobModel {
        let free = self.free_slots(agent);
        self.handed(
            agent,
            if free < self.pending.len() {
                free
            } else {
                self.pending.len() as int
            },
        )
    }

    /// Whether `agent` may race task `i`: exactly one other agent runs it.
    pub open spec fn straggling(self, agent: usize, i: int) -> bool {
        self.assigned[i].len() == 1 && self.assigned[i][0] != agent
    }

    /// The tasks below `n` that `agent` may race, oldest first.
    pub open spec fn stragglers_below(self, agent: usize, n: int) -> Seq<usize>
        decreases n,
    {
        if n <= 0 {
            Seq::empty()
        } else if self.straggling(agent, n - 1) {
            self.stragglers_below(agent, n - 1).push((n - 1) as usize)
        } else {
            self.stragglers_below(agent, n - 1)
        }
    }

    /// The run after `agent` joins in on `picks`.
    pub open spec fn raced(self, agent: usize, picks: Seq<usize>) -> JobModel {
        JobModel {
            in_flight: self.in_flight.update(
                agent as int,
                (self.in_flight[agent as int] + picks.len()) as usize,
            ),
            assigned: Seq::new(
                self.assigned.len(),
                |i: int|
                    if picks.contains(i as usize) {
                        self.assigned[i].push(agent)
                    } else {
                        self.assigned[i]
                    },
            ),
            out: self.out + Seq::new(picks.len(), |j: int| self.assign_of(agent, picks[j])),
            ..self
        }
    }

    /// The run after `agent`'s free slots race the oldest stragglers.
    pub open spec fn speculated(self, agent: usize) -> JobModel {
        let stragglers = self.stragglers_below(agent, self.tasks() as int);
        let free = self.free_slots(agent);
        self.raced(
            agent,
            stragglers.take(
                if free < stragglers.len() {
                    free
                } else {
                    stragglers.len() as int
                },
            ),
        )
    }

    /// The run after `agent` is kept busy: pending tasks first, then, with
    /// speculation, stragglers.
    pub open spec fn filled(self, agent: usize) -> JobModel {
        if self.speculative {
            self.topped_up(agent).speculated(agent)
        } else {
            self.topped_up(agent)
        }
    }

    /// The run after each of the first `n` agents is filled in turn.
    pub open spec fn filled_below(self, n: int) -> JobModel
        decreases n,
    {
        if n <= 0 {
            self
        } else {
            self.filled_below(n - 1).filled((n - 1) as usize)
        }
    }

    /// The run after running task `task` is resolved.
    pub open spec fn recorded(self, task: int, result: Outcome) -> JobModel {
        let freed = self.assigned[task];
        JobModel {
            in_flight: Seq::new(
                self.in_flight.len(),
                |a: int|
                    if freed.contains(a as usize) {
                        (self.in_flight[a] - 1) as usize
                    } else {
                        self.in_flight[a]
                    },
            ),
            assigned: self.assigned.update(task, Seq::empty()),
            results: self.results.update(task, Some(result)),
            remaining: (self.remaining - 1) as nat,
            ..self
        }
    }

    /// The run after an outcome of `task` comes in: a task that is not running is
    /// resolved already or was never handed out, and nothing changes.
    pub open spec fn on_record(self, task: int, result: Outcome) -> JobModel {
        if self.running(task) {
            self.recorded(task, result)
        } else {
            self
        }
    }

    /// The agents an outcome of `task` frees: whoever runs it.
    pub open spec fn freed_by(self, task: int) -> Seq<usize> {
        if self.running(task) {
            self.assigned[task]
        } else {
            Seq::empty()
        }
    }

    /// An outcome resolves its task and frees a slot of each agent that ran it, the
    /// racers too, and changes nothing else; a second outcome of the same task frees
    /// nobody and changes nothing.
    pub proof fn law_a_task_is_recorded_once(self, task: int, first: Outcome, second: Outcome)
        requires
            self.shaped(),
            self.running(task),
            self.remaining >= 1,
            forall|k: int|
                0 <= k < self.assigned[task].len() ==> (#[trigger] self.assigned[task][k])
                    < self.agents() && self.in_flight[self.assigned[task][k] as int] >= 1,
        ensures
            ({
                let next = self.on_record(task, first);
                &&& self.freed_by(task) == self.assigned[task]
                &&& next.results == self.results.update(task, Some(first))
                &&& next.remaining + 1 == self.remaining
                &&& next.assigned == self.assigned.update(task, Seq::empty())
                &&& next.in_flight.len() == self.in_flight.len()
                &&& forall|a: int|
                    0 <= a < self.agents() ==> (#[trigger] next.in_flight[a]) == self.in_flight[a] - (
                    if self.assigned[task].contains(a as usize) {
                        1int
                    } else {
                        0int
                    })
                &&& next == (JobModel {
                    in_flight: next.in_flight,
                    assigned: next.assigned,
                    results: next.results,
                    remaining: next.remaining,
                    ..self
                })
                &&& next.on_record(task, second) == next
                &&& next.freed_by(task) == Seq::<usize>::empty()
            }),
    {
        assert forall|a: int|
            0 <= a < self.agents() && self.assigned[task].contains(
                a as usize,
            ) implies #[trigger] self.in_flight[a] >= 1 by {
            let k = self.assigned[task].index_of(a as usize);
            assert(self.assigned[task][k] == a as usize);
        }
    }

    /// The tasks below `n` left without a runner once `agent` is gone, in order.
    pub open spec fn orphans_below(self, agent: usize, n: int) -> Seq<usize>
        decreases n,
    {
        if n <= 0 {
            Seq::empty()
        } else if self.assigned[n - 1].len() > 0 && without(self.assigned[n - 1], agent).len()
            == 0 {
            self.orphans_below(agent, n - 1).push((n - 1) as usize)
        } else {
            self.orphans_below(agent, n - 1)
        }
    }

    /// The run after `agent` is marked lost and its tasks that nobody else runs
    /// wait again.
    pub open spec fn requeued(self, agent: usize) -> JobModel {
        JobModel {
            alive: self.alive.update(agent as int, false),
            assigned: Seq::new(self.assigned.len(), |i: int| without(self.assigned[i], agent)),
            pending: self.pending + self.orphans_below(agent, self.tasks() as int),
            in_flight: self.in_flight.update(agent as int, 0),
            ..self
        }
    }

    /// The promotions of every standby the live agents below `n` hold.
    pub open spec fn promotions_below(self, n: int) -> Seq<ActionModel>
        decreases n,
    {
        if n <= 0 {
            Seq::empty()
        } else if self.alive[n - 1] {
            self.promotions_below(n - 1) + promotions((n - 1) as usize, self.standbys[n - 1])
        } else {
            self.promotions_below(n - 1)
        }
    }

    /// The run after every standby of the live agents below `n` is promoted.
    pub open spec fn rerouted_below(self, n: int) -> JobModel {
        JobModel {
            standbys: Seq::new(
                self.standbys.len(),
                |a: int|
                    if a < n && self.alive[a] {
                        Seq::empty()
                    } else {
                        self.standbys[a]
                    },
            ),
            out: self.out + self.promotions_below(n),
            ..self
        }
    }

    /// The run after every standby a survivor holds is promoted.
    pub open spec fn rerouted(self) -> JobModel {
        self.rerouted_below(self.agents() as int)
    }

    /// The run after each freed agent is refilled, and reported idle if nothing
    /// was left for it.
    pub open spec fn refilled(self, freed: Seq<usize>) -> JobModel
        decreases freed.len(),
    {
        if freed.len() == 0 {
            self
        } else {
            let agent = freed.last();
            let next = self.refilled(freed.drop_last()).filled(agent);
            if next.in_flight[agent as int] == 0 {
                next.reporting(agent, NodeState::Idle)
            } else {
                next
            }
        }
    }

    /// The run after `completer` reports an outcome of `task`, reached by `via`
    /// below it. An outcome of a task that is not running changes nothing.
    pub open spec fn finished(
        self,
        task: TaskId,
        result: Outcome,
        ok: bool,
        completer: usize,
        via: Seq<char>,
    ) -> JobModel {
        if self.running(task as int) {
            self.recorded(task as int, result).doing(
                ActionModel::Emit {
                    event: EventModel::TaskFinished {
                        host: joined_label(self.labels[completer as int], via),
                        task,
                        ok,
                    },
                },
            ).refilled(self.assigned[task as int])
        } else {
            self
        }
    }

    /// The run with `agent` filled, and reported working if it has any task.
    pub open spec fn put_to_work(self, agent: usize) -> JobModel {
        let next = self.filled(agent);
        if next.in_flight[agent as int] > 0 {
            next.reporting(agent, NodeState::Working)
        } else {
            next
        }
    }

    /// The run after each of the first `n` agents is put to work in turn.
    pub open spec fn put_to_work_below(self, n: int) -> JobModel
        decreases n,
    {
        if n <= 0 {
            self
        } else {
            self.put_to_work_below(n - 1).put_to_work((n - 1) as usize)
        }
    }

    /// The run after `event`, or the reason it is abandoned.
    pub open spec fn after(self, event: AgentEvent) -> Result<JobModel, JobError> {
        match event {
            AgentEvent::Lost(agent) => {
                let next = self.reporting(agent, NodeState::Lost).requeued(agent).rerouted();
                Ok(next.filled_below(next.agents() as int))
            },
            AgentEvent::Message(agent, message) => match message {
                FromAgent::Ready { .. } => Err(JobError::RepeatedHandshake),
                FromAgent::Discovered { .. } => Err(JobError::RepeatedHandshake),
                FromAgent::Capacity { slots } => Ok(
                    (JobModel {
                        capacity: self.capacity.update(agent as int, slots),
                        ..self
                    }).put_to_work(agent),
                ),
                FromAgent::Started { task_id } => Ok(
                    if self.running(task_id as int) {
                        self.doing(
                            ActionModel::Emit {
                                event: EventModel::TaskStarted {
                                    host: self.labels[agent as int],
                                    task: task_id,
                                },
                            },
                        )
                    } else {
                        self
                    },
                ),
                FromAgent::Completed { task_id, output, via } => Ok(
                    self.finished(task_id, Ok(output), true, agent, via@),
                ),
                FromAgent::Failed { task_id, error, via } => Ok(
                    self.finished(task_id, Err(error), false, agent, via@),
                ),
                FromAgent::Observe(observed) => Ok(
                    self.doing(
                        ActionModel::Emit {
                            event: observed@.prefixed(self.labels[agent as int]),
                        },
                    ),
                ),
                FromAgent::Pong => Ok(self),
            },
        }
    }
}

/// The agent an event is about.
pub open spec fn about(event: AgentEvent) -> usize {
    match event {
        AgentEvent::Lost(agent) => agent,
        AgentEvent::Message(agent, _) => agent,
    }
}

/// One promotion per standby, in order.
pub open spec fn promotions(agent: usize, standbys: Seq<ChildAd>) -> Seq<ActionModel> {
    Seq::new(
        standbys.len(),
        |j: int|
            ActionModel::Send {
                agent,
                message: ToAgentModel::Promote { child: standbys[j]@.label },
            },
    )
}

// ---- counting ----

proof fn lemma_load_update(assigned: Seq<Seq<usize>>, i: int, runners: Seq<usize>, agent: usize, n: int)
    requires
        0 <= i < assigned.len(),
        0 <= n <= assigned.len(),
    ensures
        load_below(assigned.update(i, runners), agent, n) == load_below(assigned, agent, n) + (if i
            < n && runners.contains(agent) {
            1int
        } else {
            0int
        }) - (if i < n && assigned[i].contains(agent) {
            1int
        } else {
            0int
        }),
    decreases n,
{
    if n > 0 {
        lemma_load_update(assigned, i, runners, agent, n - 1);
    }
}

proof fn lemma_load_same(a: Seq<Seq<usize>>, b: Seq<Seq<usize>>, agent: usize, n: int)
    requires
        0 <= n <= a.len(),
        a.len() == b.len(),
        forall|i: int| 0 <= i < n ==> (#[trigger] a[i]).contains(agent) == b[i].contains(agent),
    ensures
        load_below(a, agent, n) == load_below(b, agent, n),
    decreases n,
{
    if n > 0 {
        lemma_load_same(a, b, agent, n - 1);
        assert(a[n - 1].contains(agent) == b[n - 1].contains(agent));
    }
}

pub(crate) proof fn lemma_load_none(a: Seq<Seq<usize>>, agent: usize, n: int)
    requires
        0 <= n <= a.len(),
        forall|i: int| 0 <= i < n ==> !(#[trigger] a[i]).contains(agent),
    ensures
        load_below(a, agent, n) == 0,
    decreases n,
{
    if n > 0 {
        lemma_load_none(a, agent, n - 1);
        assert(!a[n - 1].contains(agent));
    }
}

proof fn lemma_load_positive(a: Seq<Seq<usize>>, agent: usize, i: int, n: int)
    requires
        0 <= i < n <= a.len(),
        a[i].contains(agent),
    ensures
        load_below(a, agent, n) > 0,
    decreases n,
{
    if i < n - 1 {
        lemma_load_positive(a, agent, i, n - 1);
    }
}

proof fn lemma_open_update(results: Seq<Option<Outcome>>, i: int, value: Option<Outcome>, n: int)
    requires
        0 <= i < results.len(),
        0 <= n <= results.len(),
        results[i] is None,
        value is Some,
    ensures
        open_below(results.update(i, value), n) == open_below(results, n) - (if i < n {
            1int
        } else {
            0int
        }),
    decreases n,
{
    if n > 0 {
        lemma_open_update(results, i, value, n - 1);
    }
}

proof fn lemma_open_bound(results: Seq<Option<Outcome>>, n: int)
    requires
        0 <= n <= results.len(),
    ensures
        open_below(results, n) <= n,
        (open_below(results, n) == 0) == (forall|i: int|
            0 <= i < n ==> (#[trigger] results[i]) is Some),
        (open_below(results, n) == n) == (forall|i: int|
            0 <= i < n ==> (#[trigger] results[i]) is None),
    decreases n,
{
    if n > 0 {
        lemma_open_bound(results, n - 1);
        assert(results[n - 1] is Some || results[n - 1] is None);
    }
}

proof fn lemma_without(runners: Seq<usize>, agent: usize)
    ensures
        without(runners, agent).len() <= runners.len(),
        forall|x: usize|
            #[trigger] without(runners, agent).contains(x) <==> x != agent && runners.contains(x),
        runners.no_duplicates() ==> without(runners, agent).no_duplicates(),
        !runners.contains(agent) ==> without(runners, agent) == runners,
    decreases runners.len(),
{
    if runners.len() > 0 {
        let rest = runners.drop_last();
        let kept = without(rest, agent);
        lemma_without(rest, agent);
        let last = runners.last();
        assert(runners =~= rest.push(last));
        assert forall|x: usize|
            #[trigger] without(runners, agent).contains(x) <==> x != agent && runners.contains(x) by {
            assert(runners.contains(x) <==> rest.contains(x) || x == last) by {
                if rest.contains(x) {
                    let j = rest.index_of(x);
                    assert(runners[j] == x);
                }
                if x == last {
                    assert(runners[runners.len() - 1] == x);
                }
                if runners.contains(x) && x != last {
                    let j = runners.index_of(x);
                    assert(rest[j] == x);
                }
            }
            if last != agent {
                assert(kept.push(last).contains(x) <==> kept.contains(x) || x == last) by {
                    if kept.contains(x) {
                        let j = kept.index_of(x);
                        assert(kept.push(last)[j] == x);
                    }
                    if x == last {
                        assert(kept.push(last)[kept.len() as int] == x);
                    }
                    if kept.push(last).contains(x) && x != last {
                        let j = kept.push(last).index_of(x);
                        assert(kept[j] == x);
                    }
                }
            }
        }
        if runners.no_duplicates() {
            assert(rest.no_duplicates());
            assert(!rest.contains(last)) by {
                if rest.contains(last) {
                    let j = rest.index_of(last);
                    assert(runners[j] == runners[runners.len() - 1]);
                }
            }
            if last != agent {
                assert(!kept.contains(last));
                assert(kept.push(last).no_duplicates());
            }
        }
        if !runners.contains(agent) {
            assert(!rest.contains(agent)) by {
                if rest.contains(agent) {
                    let j = rest.index_of(agent);
                    assert(runners[j] == agent);
                }
            }
            assert(runners[runners.len() - 1] == last);
        }
    }
}

impl JobModel {
    proof fn lemma_hand_next(self, agent: usize, k: int)
        requires
            0 <= k < self.pending.len(),
            self.shaped(),
            agent < self.agents(),
            self.in_flight[agent as int] + k + 1 <= usize::MAX,
            forall|j: int|
                0 <= j < self.pending.len() ==> (#[trigger] self.pending[j]) < self.tasks(),
        ensures
            self.handed(agent, k).handed(agent, 1) == self.handed(agent, k + 1),
    {
        let s = self.handed(agent, k);
        let t = s.handed(agent, 1);
        let u = self.handed(agent, k + 1);
        assert(s.pending[0] == self.pending[k]);
        assert(t.in_flight =~= u.in_flight);
        assert(t.pending =~= u.pending);
        assert forall|i: int| 0 <= i < self.assigned.len() implies t.assigned[i]
            == u.assigned[i] by {
            let x = i as usize;
            assert(s.pending.take(1).contains(x) <==> self.pending[k] == x) by {
                if self.pending[k] == x {
                    assert(s.pending.take(1)[0] == x);
                }
            }
            assert(self.pending.take(k + 1).contains(x) <==> self.pending.take(k).contains(x)
                || self.pending[k] == x) by {
                if self.pending.take(k).contains(x) {
                    let j = self.pending.take(k).index_of(x);
                    assert(self.pending.take(k + 1)[j] == x);
                }
                if self.pending[k] == x {
                    assert(self.pending.take(k + 1)[k] == x);
                }
                if self.pending.take(k + 1).contains(x) && self.pending[k] != x {
                    let j = self.pending.take(k + 1).index_of(x);
                    assert(self.pending.take(k)[j] == x);
                }
            }
        }
        assert(t.assigned =~= u.assigned);
        assert(t.out =~= u.out);
    }

    proof fn lemma_hand_none(self, agent: usize)
        requires
            self.shaped(),
            agent < self.agents(),
        ensures
            self.handed(agent, 0) == self,
    {
        let s = self.handed(agent, 0);
        assert(s.in_flight =~= self.in_flight);
        assert(s.pending =~= self.pending);
        assert(s.assigned =~= self.assigned);
        assert(s.out =~= self.out);
    }

    proof fn lemma_hand_one_wf(self, agent: usize)
        requires
            self.wf(),
            agent < self.agents(),
            self.alive[agent as int],
            self.pending.len() > 0,
            self.in_flight[agent as int] < usize::MAX,
        ensures
            self.handed(agent, 1).wf(),
    {
        let s = self.handed(agent, 1);
        let task = self.pending[0];
        let t = task as int;
        assert(self.pending.take(1) =~= seq![task]);
        assert(self.pending.take(1)[0] == task);
        assert(s.assigned =~= self.assigned.update(t, seq![agent]));
        assert forall|a: int| 0 <= a < s.agents() implies (#[trigger] s.in_flight[a]) as nat == load(
            s.assigned,
            a as usize,
        ) by {
            lemma_load_update(self.assigned, t, seq![agent], a as usize, self.assigned.len() as int);
            assert(self.in_flight[a] as nat == load(self.assigned, a as usize));
            assert(self.assigned[t].len() == 0);
            assert(seq![agent].contains(a as usize) <==> a == agent) by {
                if a == agent {
                    assert(seq![agent][0] == a as usize);
                }
            }
        }
        assert(s.pending.no_duplicates());
        assert forall|j: int| 0 <= j < s.pending.len() implies (#[trigger] s.pending[j]) < s.tasks()
            && s.results[s.pending[j] as int] is None && s.assigned[s.pending[j] as int].len()
            == 0 by {
            assert(s.pending[j] == self.pending[j + 1]);
            assert(self.pending[j + 1] != self.pending[0]);
        }
        assert forall|i: int|
            0 <= i < s.tasks() && (#[trigger] s.results[i]) is None && s.assigned[i].len()
                == 0 implies s.pending.contains(i as usize) by {
            assert(self.results[i] is None);
            assert(i != t);
            assert(self.pending.contains(i as usize));
            let j = self.pending.index_of(i as usize);
            assert(s.pending[j - 1] == i as usize);
        }
        assert forall|i: int|
            0 <= i < s.tasks() && (#[trigger] s.assigned[i]).len() > 0 implies s.results[i] is None by {
            if i != t {
                assert(self.assigned[i].len() > 0);
            }
        }
        assert forall|i: int| 0 <= i < s.tasks() implies (#[trigger] s.assigned[i]).len() <= 2
            && s.assigned[i].no_duplicates() && forall|k: int|
            0 <= k < s.assigned[i].len() ==> (#[trigger] s.assigned[i][k]) < s.agents()
                && s.alive[s.assigned[i][k] as int] by {
            if i != t {
                assert(self.assigned[i] == s.assigned[i]);
            }
        }
    }

    proof fn lemma_straggler_member(self, agent: usize, n: int, i: int)
        requires
            0 <= n <= self.assigned.len() <= usize::MAX,
        ensures
            self.stragglers_below(agent, n).contains(i as usize) && 0 <= i <= usize::MAX ==> i < n
                && self.straggling(agent, i),
            0 <= i < n && self.straggling(agent, i) ==> self.stragglers_below(agent, n).contains(
                i as usize,
            ),
            self.stragglers_below(agent, n).len() <= n,
        decreases n,
    {
        if n > 0 {
            self.lemma_straggler_member(agent, n - 1, i);
            let s = self.stragglers_below(agent, n - 1);
            if self.straggling(agent, n - 1) {
                let t = s.push((n - 1) as usize);
                if 0 <= i <= usize::MAX && t.contains(i as usize) && i != n - 1 {
                    let j = t.index_of(i as usize);
                    assert(s[j] == i as usize);
                }
                if i == n - 1 {
                    assert(t[s.len() as int] == i as usize);
                } else if s.contains(i as usize) {
                    let j = s.index_of(i as usize);
                    assert(t[j] == i as usize);
                }
            }
        }
    }

    proof fn lemma_straggler_prefix(self, agent: usize, i: int, n: int)
        requires
            0 <= i <= n <= self.assigned.len(),
        ensures
            self.stragglers_below(agent, i).len() <= self.stragglers_below(agent, n).len(),
            self.stragglers_below(agent, n).take(self.stragglers_below(agent, i).len() as int)
                == self.stragglers_below(agent, i),
        decreases n,
    {
        let s = self.stragglers_below(agent, i);
        if i == n {
            assert(s.take(s.len() as int) =~= s);
        } else {
            self.lemma_straggler_prefix(agent, i, n - 1);
            let t = self.stragglers_below(agent, n - 1);
            if self.straggling(agent, n - 1) {
                assert(t.push((n - 1) as usize).take(s.len() as int) =~= t.take(s.len() as int));
            }
        }
    }

    proof fn lemma_race_one_wf(self, agent: usize, task: usize)
        requires
            self.wf(),
            agent < self.agents(),
            self.alive[agent as int],
            task < self.tasks(),
            self.straggling(agent, task as int),
            self.in_flight[agent as int] < usize::MAX,
        ensures
            self.raced(agent, seq![task]).wf(),
            self.raced(agent, seq![task]).assigned == self.assigned.update(
                task as int,
                self.assigned[task as int].push(agent),
            ),
    {
        let s = self.raced(agent, seq![task]);
        let t = task as int;
        let runners = self.assigned[t].push(agent);
        assert(seq![task][0] == task);
        assert(s.assigned =~= self.assigned.update(t, runners));
        assert(self.assigned[t].len() == 1);
        assert forall|a: int| 0 <= a < s.agents() implies (#[trigger] s.in_flight[a]) as nat == load(
            s.assigned,
            a as usize,
        ) by {
            lemma_load_update(self.assigned, t, runners, a as usize, self.assigned.len() as int);
            assert(self.in_flight[a] as nat == load(self.assigned, a as usize));
            let x = a as usize;
            assert(runners.contains(x) <==> self.assigned[t].contains(x) || x == agent) by {
                if self.assigned[t].contains(x) {
                    assert(runners[0] == x);
                }
                if x == agent {
                    assert(runners[1] == x);
                }
                if runners.contains(x) && x != agent {
                    assert(self.assigned[t][0] == x);
                }
            }
            assert(!self.assigned[t].contains(agent));
        }
        assert forall|i: int|
            0 <= i < s.tasks() && (#[trigger] s.results[i]) is None && s.assigned[i].len()
                == 0 implies s.pending.contains(i as usize) by {
            assert(self.results[i] is None);
        }
        assert forall|i: int|
            0 <= i < s.tasks() && (#[trigger] s.assigned[i]).len() > 0 implies s.results[i] is None by {
            assert(self.assigned[i].len() > 0);
        }
        assert forall|j: int| 0 <= j < s.pending.len() implies (#[trigger] s.pending[j]) < s.tasks()
            && s.results[s.pending[j] as int] is None && s.assigned[s.pending[j] as int].len()
            == 0 by {
            assert(self.pending[j] < self.tasks());
        }
        assert forall|i: int| 0 <= i < s.tasks() implies (#[trigger] s.assigned[i]).len() <= 2
            && s.assigned[i].no_duplicates() && forall|k: int|
            0 <= k < s.assigned[i].len() ==> (#[trigger] s.assigned[i][k]) < s.agents()
                && s.alive[s.assigned[i][k] as int] by {
            if i == t {
                assert(self.assigned[t][0] < self.agents());
            } else {
                assert(self.assigned[i] == s.assigned[i]);
            }
        }
    }

    proof fn lemma_race_next(self, agent: usize, picks: Seq<usize>, task: usize)
        requires
            self.shaped(),
            agent < self.agents(),
            task < self.tasks(),
            !picks.contains(task),
            self.in_flight[agent as int] + picks.len() + 1 <= usize::MAX,
        ensures
            self.raced(agent, picks).raced(agent, seq![task]) == self.raced(
                agent,
                picks.push(task),
            ),
    {
        let s = self.raced(agent, picks).raced(agent, seq![task]);
        let u = self.raced(agent, picks.push(task));
        assert(s.in_flight =~= u.in_flight);
        assert forall|i: int| 0 <= i < self.assigned.len() implies s.assigned[i]
            == u.assigned[i] by {
            let x = i as usize;
            assert(seq![task].contains(x) <==> x == task) by {
                assert(seq![task][0] == task);
            }
            assert(picks.push(task).contains(x) <==> picks.contains(x) || x == task) by {
                if picks.contains(x) {
                    let j = picks.index_of(x);
                    assert(picks.push(task)[j] == x);
                }
                if x == task {
                    assert(picks.push(task)[picks.len() as int] == x);
                }
                if picks.push(task).contains(x) && x != task {
                    let j = picks.push(task).index_of(x);
                    assert(picks[j] == x);
                }
            }
        }
        assert(s.assigned =~= u.assigned);
        assert(s.out =~= u.out);
    }

    proof fn lemma_race_none(self, agent: usize)
        requires
            self.shaped(),
            agent < self.agents(),
        ensures
            self.raced(agent, Seq::empty()) == self,
    {
        let s = self.raced(agent, Seq::empty());
        assert(s.in_flight =~= self.in_flight);
        assert(s.assigned =~= self.assigned);
        assert(s.out =~= self.out);
    }

    proof fn lemma_record_wf(self, task: int, result: Outcome)
        requires
            self.wf(),
            self.running(task),
        ensures
            self.recorded(task, result).wf(),
            self.remaining > 0,
            forall|k: int|
                0 <= k < self.assigned[task].len() ==> self.in_flight[(
                #[trigger] self.assigned[task][k]) as int] > 0,
    {
        let s = self.recorded(task, result);
        let none = Seq::<usize>::empty();
        let freed = self.assigned[task];
        assert forall|a: int| 0 <= a < s.agents() implies (#[trigger] s.in_flight[a]) as nat == load(
            s.assigned,
            a as usize,
        ) by {
            lemma_load_update(self.assigned, task, none, a as usize, self.assigned.len() as int);
            assert(self.in_flight[a] as nat == load(self.assigned, a as usize));
            if freed.contains(a as usize) {
                lemma_load_positive(self.assigned, a as usize, task, self.assigned.len() as int);
            }
        }
        assert forall|k: int| 0 <= k < freed.len() implies self.in_flight[(
        #[trigger] self.assigned[task][k]) as int] > 0 by {
            let a = freed[k];
            assert(freed.contains(a));
            assert(a < self.agents());
            lemma_load_positive(self.assigned, a, task, self.assigned.len() as int);
            assert(self.in_flight[a as int] as nat == load(self.assigned, a));
        }
        assert(self.results[task] is None);
        lemma_open_update(self.results, task, Some(result), self.tasks() as int);
        assert forall|j: int| 0 <= j < s.pending.len() implies (#[trigger] s.pending[j]) < s.tasks()
            && s.results[s.pending[j] as int] is None && s.assigned[s.pending[j] as int].len()
            == 0 by {
            assert(self.pending[j] as int != task);
        }
        assert forall|i: int|
            0 <= i < s.tasks() && (#[trigger] s.results[i]) is None && s.assigned[i].len()
                == 0 implies s.pending.contains(i as usize) by {
            assert(self.results[i] is None);
        }
        assert forall|i: int|
            0 <= i < s.tasks() && (#[trigger] s.assigned[i]).len() > 0 implies s.results[i] is None by {
            assert(self.assigned[i].len() > 0);
        }
        assert forall|i: int| 0 <= i < s.tasks() implies (#[trigger] s.assigned[i]).len() <= 2
            && s.assigned[i].no_duplicates() && forall|k: int|
            0 <= k < s.assigned[i].len() ==> (#[trigger] s.assigned[i][k]) < s.agents()
                && s.alive[s.assigned[i][k] as int] by {
            if i != task {
                assert(self.assigned[i] == s.assigned[i]);
            }
        }
    }

    proof fn lemma_orphans(self, agent: usize, n: int)
        requires
            0 <= n <= self.assigned.len() <= usize::MAX,
        ensures
            self.orphans_below(agent, n).no_duplicates(),
            forall|x: usize| #[trigger]
                self.orphans_below(agent, n).contains(x) <==> x < n && self.assigned[x as int].len()
                    > 0 && without(self.assigned[x as int], agent).len() == 0,
        decreases n,
    {
        if n > 0 {
            self.lemma_orphans(agent, n - 1);
            let s = self.orphans_below(agent, n - 1);
            if self.assigned[n - 1].len() > 0 && without(self.assigned[n - 1], agent).len() == 0 {
                let t = s.push((n - 1) as usize);
                assert forall|x: usize| #[trigger] t.contains(x) <==> s.contains(x) || x == n - 1 by {
                    if s.contains(x) {
                        let j = s.index_of(x);
                        assert(t[j] == x);
                    }
                    if x == n - 1 {
                        assert(t[s.len() as int] == x);
                    }
                    if t.contains(x) && x != n - 1 {
                        let j = t.index_of(x);
                        assert(s[j] == x);
                    }
                }
                assert(!s.contains((n - 1) as usize));
                assert(t.no_duplicates());
            }
        }
    }

    proof fn lemma_requeue_wf(self, agent: usize)
        requires
            self.wf(),
            agent < self.agents(),
        ensures
            self.requeued(agent).wf(),
    {
        let s = self.requeued(agent);
        let n = self.tasks() as int;
        let orphans = self.orphans_below(agent, n);
        self.lemma_orphans(agent, n);
        assert forall|a: int| 0 <= a < s.agents() implies (#[trigger] s.in_flight[a]) as nat == load(
            s.assigned,
            a as usize,
        ) by {
            assert forall|i: int| 0 <= i < n implies (#[trigger] s.assigned[i]).contains(a as usize)
                == (a != agent && self.assigned[i].contains(a as usize)) by {
                lemma_without(self.assigned[i], agent);
            }
            if a == agent {
                lemma_load_none(s.assigned, a as usize, n);
            } else {
                assert(self.in_flight[a] as nat == load(self.assigned, a as usize));
                lemma_load_same(s.assigned, self.assigned, a as usize, n);
            }
        }
        assert forall|j: int| 0 <= j < s.pending.len() implies (#[trigger] s.pending[j]) < s.tasks()
            && s.results[s.pending[j] as int] is None && s.assigned[s.pending[j] as int].len()
            == 0 by {
            if j < self.pending.len() {
                assert(s.pending[j] == self.pending[j]);
                lemma_without(self.assigned[self.pending[j] as int], agent);
            } else {
                let x = orphans[j - self.pending.len()];
                assert(s.pending[j] == x);
                assert(orphans.contains(x));
            }
        }
        assert forall|i: int, j: int| 0 <= i < s.pending.len() && 0 <= j < s.pending.len() && i
            != j implies s.pending[i] != s.pending[j] by {
            let p = self.pending.len();
            if i < p && j >= p {
                assert(orphans.contains(orphans[j - p]));
                assert(self.assigned[self.pending[i] as int].len() == 0);
            } else if i >= p && j < p {
                assert(orphans.contains(orphans[i - p]));
                assert(self.assigned[self.pending[j] as int].len() == 0);
            } else if i >= p && j >= p {
                assert(orphans[i - p] != orphans[j - p]);
            }
        }
        assert(s.pending.no_duplicates());
        assert forall|i: int|
            0 <= i < s.tasks() && (#[trigger] s.results[i]) is None && s.assigned[i].len()
                == 0 implies s.pending.contains(i as usize) by {
            assert(self.results[i] is None);
            if self.assigned[i].len() == 0 {
                let j = self.pending.index_of(i as usize);
                assert(self.pending.contains(i as usize));
                assert(s.pending[j] == i as usize);
            } else {
                assert(orphans.contains(i as usize));
                let j = orphans.index_of(i as usize);
                assert(s.pending[self.pending.len() + j] == i as usize);
            }
        }
        assert forall|i: int|
            0 <= i < s.tasks() && (#[trigger] s.assigned[i]).len() > 0 implies s.results[i] is None by {
            lemma_without(self.assigned[i], agent);
            assert(self.assigned[i].len() > 0);
        }
        assert forall|i: int| 0 <= i < s.tasks() implies (#[trigger] s.assigned[i]).len() <= 2
            && s.assigned[i].no_duplicates() && forall|k: int|
            0 <= k < s.assigned[i].len() ==> (#[trigger] s.assigned[i][k]) < s.agents()
                && s.alive[s.assigned[i][k] as int] by {
            lemma_without(self.assigned[i], agent);
            let kept = s.assigned[i];
            assert forall|k: int| 0 <= k < kept.len() implies (#[trigger] s.assigned[i][k])
                < s.agents() && s.alive[s.assigned[i][k] as int] by {
                assert(kept.contains(kept[k]));
                let m = self.assigned[i].index_of(kept[k]);
                assert(self.assigned[i].contains(kept[k]));
                assert(self.assigned[i][m] == kept[k]);
            }
        }
    }
}


/// Whether two runs differ at most in what is handed out to whom.
pub open spec fn same_facts(a: JobModel, b: JobModel) -> bool {
    &&& a.labels == b.labels
    &&& a.capacity == b.capacity
    &&& a.alive == b.alive
    &&& a.results == b.results
    &&& a.remaining == b.remaining
    &&& a.payloads == b.payloads
    &&& a.speculative == b.speculative
    &&& a.standbys == b.standbys
    &&& a.in_flight.len() == b.in_flight.len()
}

impl JobModel {
    proof fn lemma_handed_wf(self, agent: usize, k: int)
        requires
            self.wf(),
            agent < self.agents(),
            0 <= k <= self.pending.len(),
            k <= self.free_slots(agent),
        ensures
            self.handed(agent, k).wf(),
        decreases k,
    {
        if k == 0 {
            self.lemma_hand_none(agent);
        } else {
            self.lemma_handed_wf(agent, k - 1);
            self.lemma_hand_next(agent, k - 1);
            let s = self.handed(agent, k - 1);
            assert(s.in_flight[agent as int] == self.in_flight[agent as int] + (k - 1));
            s.lemma_hand_one_wf(agent);
        }
    }

    proof fn lemma_topped_up_wf(self, agent: usize)
        requires
            self.wf(),
            agent < self.agents(),
        ensures
            self.topped_up(agent).wf(),
            same_facts(self, self.topped_up(agent)),
    {
        let free = self.free_slots(agent);
        let k = if free < self.pending.len() {
            free
        } else {
            self.pending.len() as int
        };
        self.lemma_handed_wf(agent, k);
    }

    proof fn lemma_raced_wf(self, agent: usize, n: int)
        requires
            self.wf(),
            agent < self.agents(),
            0 <= n <= self.tasks(),
            self.stragglers_below(agent, n).len() <= self.free_slots(agent),
        ensures
            self.raced(agent, self.stragglers_below(agent, n)).wf(),
            forall|i: int|
                n <= i < self.tasks() ==> self.raced(
                    agent,
                    self.stragglers_below(agent, n),
                ).assigned[i] == self.assigned[i],
        decreases n,
    {
        if n == 0 {
            self.lemma_race_none(agent);
        } else {
            let picks = self.stragglers_below(agent, n - 1);
            self.lemma_straggler_prefix(agent, n - 1, n);
            self.lemma_raced_wf(agent, n - 1);
            if self.straggling(agent, n - 1) {
                let task = (n - 1) as usize;
                self.lemma_straggler_member(agent, n - 1, n - 1);
                assert(!picks.contains(task));
                self.lemma_race_next(agent, picks, task);
                let s = self.raced(agent, picks);
                assert(s.in_flight[agent as int] == self.in_flight[agent as int] + picks.len());
                s.lemma_race_one_wf(agent, task);
            }
            assert forall|i: int| n <= i < self.tasks() implies self.raced(
                agent,
                self.stragglers_below(agent, n),
            ).assigned[i] == self.assigned[i] by {
                self.lemma_straggler_member(agent, n, i);
            }
        }
    }

    /// The stragglers picked are those below some position.
    proof fn lemma_picked_prefix(self, agent: usize, k: int, n: int) -> (m: int)
        requires
            0 <= n <= self.tasks(),
            self.assigned.len() == self.tasks(),
            0 <= k <= self.stragglers_below(agent, n).len(),
        ensures
            0 <= m <= n,
            self.stragglers_below(agent, m) == self.stragglers_below(agent, n).take(k),
        decreases n,
    {
        let all = self.stragglers_below(agent, n);
        if k == all.len() {
            assert(all.take(k) =~= all);
            n
        } else {
            let m = self.lemma_picked_prefix(agent, k, n - 1);
            assert(self.stragglers_below(agent, n - 1).take(k) =~= all.take(k));
            m
        }
    }

    proof fn lemma_speculated_wf(self, agent: usize)
        requires
            self.wf(),
            agent < self.agents(),
        ensures
            self.speculated(agent).wf(),
            same_facts(self, self.speculated(agent)),
    {
        let n = self.tasks() as int;
        let stragglers = self.stragglers_below(agent, n);
        let free = self.free_slots(agent);
        let k = if free < stragglers.len() {
            free
        } else {
            stragglers.len() as int
        };
        let m = self.lemma_picked_prefix(agent, k, n);
        self.lemma_raced_wf(agent, m);
    }

    /// Filling an agent keeps the invariant and changes only what is handed out.
    pub proof fn lemma_filled_wf(self, agent: usize)
        requires
            self.wf(),
            agent < self.agents(),
        ensures
            self.filled(agent).wf(),
            same_facts(self, self.filled(agent)),
    {
        self.lemma_topped_up_wf(agent);
        if self.speculative {
            self.topped_up(agent).lemma_speculated_wf(agent);
        }
    }

    proof fn lemma_filled_below_wf(self, n: int)
        requires
            self.wf(),
            0 <= n <= self.agents(),
        ensures
            self.filled_below(n).wf(),
            same_facts(self, self.filled_below(n)),
        decreases n,
    {
        if n > 0 {
            self.lemma_filled_below_wf(n - 1);
            self.filled_below(n - 1).lemma_filled_wf((n - 1) as usize);
        }
    }

    proof fn lemma_doing_wf(self, action: ActionModel)
        requires
            self.wf(),
        ensures
            self.doing(action).wf(),
    {
        let s = self.doing(action);
        assert(s.partitioned()) by {
            assert forall|i: int|
                0 <= i < s.tasks() && (#[trigger] s.results[i]) is None && s.assigned[i].len()
                    == 0 implies s.pending.contains(i as usize) by {
                assert(self.results[i] is None);
            }
        }
        assert(s.well_placed());
        assert(s.counted()) by {
            assert forall|a: int| 0 <= a < s.agents() implies (#[trigger] s.in_flight[a]) as nat
                == load(s.assigned, a as usize) by {
                assert(self.in_flight[a] as nat == load(self.assigned, a as usize));
            }
        }
    }

    proof fn lemma_refilled_wf(self, freed: Seq<usize>)
        requires
            self.wf(),
            forall|k: int| 0 <= k < freed.len() ==> (#[trigger] freed[k]) < self.agents(),
        ensures
            self.refilled(freed).wf(),
            same_facts(self, self.refilled(freed)),
        decreases freed.len(),
    {
        if freed.len() > 0 {
            let agent = freed.last();
            let rest = freed.drop_last();
            assert forall|k: int| 0 <= k < rest.len() implies (#[trigger] rest[k])
                < self.agents() by {
                assert(rest[k] == freed[k]);
            }
            self.lemma_refilled_wf(rest);
            let before = self.refilled(rest);
            assert(freed[freed.len() - 1] < self.agents());
            before.lemma_filled_wf(agent);
            let next = before.filled(agent);
            next.lemma_doing_wf(
                ActionModel::Emit {
                    event: EventModel::Node {
                        host: next.labels[agent as int],
                        state: NodeState::Idle,
                    },
                },
            );
        }
    }

    proof fn lemma_put_to_work_wf(self, agent: usize)
        requires
            self.wf(),
            agent < self.agents(),
        ensures
            self.put_to_work(agent).wf(),
            same_facts(self, self.put_to_work(agent)),
    {
        self.lemma_filled_wf(agent);
        let next = self.filled(agent);
        next.lemma_doing_wf(
            ActionModel::Emit {
                event: EventModel::Node {
                    host: next.labels[agent as int],
                    state: NodeState::Working,
                },
            },
        );
    }

    proof fn lemma_rerouted_wf(self, n: int)
        requires
            self.wf(),
            0 <= n <= self.agents(),
        ensures
            self.rerouted_below(n).wf(),
    {
        let s = self.rerouted_below(n);
        assert(s.partitioned()) by {
            assert forall|i: int|
                0 <= i < s.tasks() && (#[trigger] s.results[i]) is None && s.assigned[i].len()
                    == 0 implies s.pending.contains(i as usize) by {
                assert(self.results[i] is None);
            }
        }
        assert(s.counted()) by {
            assert forall|a: int| 0 <= a < s.agents() implies (#[trigger] s.in_flight[a]) as nat
                == load(s.assigned, a as usize) by {
                assert(self.in_flight[a] as nat == load(self.assigned, a as usize));
            }
        }
    }

    proof fn lemma_finished_wf(
        self,
        task: TaskId,
        result: Outcome,
        ok: bool,
        completer: usize,
        via: Seq<char>,
    )
        requires
            self.wf(),
            completer < self.agents(),
        ensures
            self.finished(task, result, ok, completer, via).wf(),
            ({
                let next = self.finished(task, result, ok, completer, via);
                &&& next.labels == self.labels
                &&& next.payloads == self.payloads
                &&& next.alive == self.alive
                &&& if self.running(task as int) {
                    &&& next.results == self.results.update(task as int, Some(result))
                    &&& next.remaining + 1 == self.remaining
                } else {
                    next == self
                }
            }),
    {
        if self.running(task as int) {
            let t = task as int;
            self.lemma_record_wf(t, result);
            let s = self.recorded(t, result);
            let event = EventModel::TaskFinished {
                host: joined_label(self.labels[completer as int], via),
                task,
                ok,
            };
            s.lemma_doing_wf(ActionModel::Emit { event });
            assert forall|k: int| 0 <= k < self.assigned[t].len() implies (
            #[trigger] self.assigned[t][k]) < self.agents() by {}
            s.doing(ActionModel::Emit { event }).lemma_refilled_wf(self.assigned[t]);
        }
    }

    proof fn lemma_capacity_wf(self, agent: usize, slots: usize)
        requires
            self.wf(),
            agent < self.agents(),
        ensures
            (JobModel { capacity: self.capacity.update(agent as int, slots), ..self }).wf(),
    {
        let s = JobModel { capacity: self.capacity.update(agent as int, slots), ..self };
        assert(s.partitioned()) by {
            assert forall|i: int|
                0 <= i < s.tasks() && (#[trigger] s.results[i]) is None && s.assigned[i].len()
                    == 0 implies s.pending.contains(i as usize) by {
                assert(self.results[i] is None);
            }
        }
        assert(s.counted()) by {
            assert forall|a: int| 0 <= a < s.agents() implies (#[trigger] s.in_flight[a]) as nat
                == load(s.assigned, a as usize) by {
                assert(self.in_flight[a] as nat == load(self.assigned, a as usize));
            }
        }
    }

    /// Every event keeps the run's invariant: each task stays in exactly one place
    /// (waiting, running or resolved), on at most two live agents, and the
    /// counters keep saying what they count.
    pub proof fn law_events_keep_the_invariant(self, event: AgentEvent)
        requires
            self.wf(),
            about(event) < self.agents(),
        ensures
            self.after(event) matches Ok(next) ==> next.wf() && next.labels == self.labels
                && next.payloads == self.payloads,
    {
        match event {
            AgentEvent::Lost(agent) => {
                let a = self.reporting(agent, NodeState::Lost);
                self.lemma_doing_wf(
                    ActionModel::Emit {
                        event: EventModel::Node {
                            host: self.labels[agent as int],
                            state: NodeState::Lost,
                        },
                    },
                );
                a.lemma_requeue_wf(agent);
                let b = a.requeued(agent);
                b.lemma_rerouted_wf(b.agents() as int);
                b.rerouted().lemma_filled_below_wf(b.agents() as int);
            },
            AgentEvent::Message(agent, message) => match message {
                FromAgent::Ready { .. } => {},
                FromAgent::Discovered { .. } => {},
                FromAgent::Capacity { slots } => {
                    self.lemma_capacity_wf(agent, slots);
                    (JobModel {
                        capacity: self.capacity.update(agent as int, slots),
                        ..self
                    }).lemma_put_to_work_wf(agent);
                },
                FromAgent::Started { task_id } => {
                    self.lemma_doing_wf(
                        ActionModel::Emit {
                            event: EventModel::TaskStarted {
                                host: self.labels[agent as int],
                                task: task_id,
                            },
                        },
                    );
                },
                FromAgent::Completed { task_id, output, via } => {
                    self.lemma_finished_wf(task_id, Ok(output), true, agent, via@);
                },
                FromAgent::Failed { task_id, error, via } => {
                    self.lemma_finished_wf(task_id, Err(error), false, agent, via@);
                },
                FromAgent::Observe(observed) => {
                    self.lemma_doing_wf(
                        ActionModel::Emit {
                            event: observed@.prefixed(self.labels[agent as int]),
                        },
                    );
                },
                FromAgent::Pong => {},
            },
        }
    }

    /// The outcome an event reports, with the task it is of.
    pub open spec fn reported(event: AgentEvent) -> Option<(TaskId, Outcome)> {
        match event {
            AgentEvent::Message(_, FromAgent::Completed { task_id, output, .. }) => Some(
                (task_id, Ok(output)),
            ),
            AgentEvent::Message(_, FromAgent::Failed { task_id, error, .. }) => Some(
                (task_id, Err(error)),
            ),
            _ => None,
        }
    }

    /// Outcomes are written once: an event resolves at most the running task it
    /// reports an outcome of, with that outcome, and every other entry stays as it
    /// was. A resolved task is never overwritten and nothing is resolved by a
    /// loss.
    pub proof fn law_first_outcome_stands(self, event: AgentEvent)
        requires
            self.wf(),
            about(event) < self.agents(),
        ensures
            self.after(event) matches Ok(next) ==> match Self::reported(event) {
                Some((task, outcome)) => if self.running(task as int) {
                    &&& next.results == self.results.update(task as int, Some(outcome))
                    &&& next.remaining + 1 == self.remaining
                } else {
                    next == self
                },
                None => next.results == self.results && next.remaining == self.remaining,
            },
            forall|i: int|
                0 <= i < self.tasks() && (#[trigger] self.results[i]) is Some ==> (self.after(
                    event,
                ) matches Ok(next) ==> next.results[i] == self.results[i]),
    {
        match event {
            AgentEvent::Lost(agent) => {
                let a = self.reporting(agent, NodeState::Lost);
                self.lemma_doing_wf(
                    ActionModel::Emit {
                        event: EventModel::Node {
                            host: self.labels[agent as int],
                            state: NodeState::Lost,
                        },
                    },
                );
                a.lemma_requeue_wf(agent);
                let b = a.requeued(agent);
                b.lemma_rerouted_wf(b.agents() as int);
                b.rerouted().lemma_filled_below_wf(b.agents() as int);
            },
            AgentEvent::Message(agent, message) => match message {
                FromAgent::Capacity { slots } => {
                    self.lemma_capacity_wf(agent, slots);
                    (JobModel {
                        capacity: self.capacity.update(agent as int, slots),
                        ..self
                    }).lemma_put_to_work_wf(agent);
                },
                FromAgent::Completed { task_id, output, via } => {
                    self.lemma_finished_wf(task_id, Ok(output), true, agent, via@);
                    if self.running(task_id as int) {
                        assert(self.assigned[task_id as int].len() > 0);
                    }
                },
                FromAgent::Failed { task_id, error, via } => {
                    self.lemma_finished_wf(task_id, Err(error), false, agent, via@);
                    if self.running(task_id as int) {
                        assert(self.assigned[task_id as int].len() > 0);
                    }
                },
                _ => {},
            },
        }
    }

    /// A lost agent takes nothing: filling it changes nothing.
    pub proof fn law_a_lost_agent_takes_nothing(self, agent: usize)
        requires
            self.wf(),
            agent < self.agents(),
            !self.alive[agent as int],
        ensures
            self.filled(agent) == self,
    {
        self.lemma_hand_none(agent);
        self.lemma_race_none(agent);
        let stragglers = self.stragglers_below(agent, self.tasks() as int);
        assert(stragglers.take(0) =~= Seq::empty());
    }

    /// A loss loses no task: the tasks without an outcome are the same before and
    /// after, none of them runs on the lost agent any more, and one that the lost
    /// agent ran alone waits again behind those already waiting.
    pub proof fn law_a_loss_requeues_its_tasks(self, agent: usize)
        requires
            self.wf(),
            agent < self.agents(),
        ensures
            self.requeued(agent).wf(),
            !self.requeued(agent).alive[agent as int],
            self.requeued(agent).results == self.results,
            forall|i: int|
                0 <= i < self.tasks() ==> !(#[trigger] self.requeued(
                    agent,
                ).assigned[i]).contains(agent),
            forall|i: int|
                0 <= i < self.tasks() && (#[trigger] self.assigned[i]) == seq![agent]
                    ==> self.requeued(agent).pending.contains(i as usize),
            forall|i: int|
                0 <= i < self.tasks() && !(#[trigger] self.assigned[i]).contains(agent)
                    ==> self.requeued(agent).assigned[i] == self.assigned[i],
            forall|j: int|
                0 <= j < self.pending.len() ==> self.requeued(agent).pending[j]
                    == #[trigger] self.pending[j],
    {
        self.lemma_requeue_wf(agent);
        let s = self.requeued(agent);
        assert forall|i: int| 0 <= i < self.tasks() implies !(#[trigger] s.assigned[i]).contains(
            agent,
        ) by {
            lemma_without(self.assigned[i], agent);
        }
        assert forall|i: int|
            0 <= i < self.tasks() && (#[trigger] self.assigned[i]) == seq![agent] implies s.pending.contains(
            i as usize,
        ) by {
            lemma_without(self.assigned[i], agent);
            let kept = without(self.assigned[i], agent);
            if kept.len() > 0 {
                assert(kept.contains(kept[0]));
            }
            assert(s.assigned[i].len() == 0);
            assert(self.results[i] is None);
            assert(s.results[i] is None);
        }
        assert forall|i: int|
            0 <= i < self.tasks() && !(#[trigger] self.assigned[i]).contains(agent) implies s.assigned[i]
            == self.assigned[i] by {
            lemma_without(self.assigned[i], agent);
        }
    }

    /// Filling keeps a live agent busy: afterwards it is at its capacity or
    /// nothing is waiting. It is never filled beyond its capacity.
    pub proof fn law_filling_is_work_conserving(self, agent: usize)
        requires
            self.wf(),
            agent < self.agents(),
        ensures
            self.alive[agent as int] ==> self.filled(agent).in_flight[agent as int]
                >= self.capacity[agent as int] || self.filled(agent).pending.len() == 0,
            self.filled(agent).in_flight[agent as int] <= self.capacity[agent as int]
                || self.filled(agent).in_flight[agent as int] == self.in_flight[agent as int],
            forall|b: int|
                0 <= b < self.agents() && b != agent ==> self.filled(agent).in_flight[b]
                    == #[trigger] self.in_flight[b],
    {
        self.lemma_topped_up_wf(agent);
    }

    /// When no task is left open every task has its outcome.
    pub proof fn law_nothing_open_means_all_resolved(self)
        requires
            self.wf(),
        ensures
            self.remaining == 0 <==> (forall|i: int|
                0 <= i < self.tasks() ==> (#[trigger] self.results[i]) is Some),
    {
        lemma_open_bound(self.results, self.tasks() as int);
    }

    /// While a task is open it is waiting or on a live agent, so as long as one
    /// agent with a free slot survives the run can go on.
    pub proof fn law_open_tasks_are_never_forgotten(self, task: int)
        requires
            self.wf(),
            0 <= task < self.tasks(),
            self.results[task] is None,
        ensures
            self.pending.contains(task as usize) || (self.assigned[task].len() > 0 && forall|k: int|
                0 <= k < self.assigned[task].len() ==> self.alive[(
                #[trigger] self.assigned[task][k]) as int]),
    {
    }
}


/// A copy of a byte vector.
pub fn copy_bytes(v: &Vec<u8>) -> (r: Vec<u8>)
    ensures
        r@ == v@,
{
    let r = v.clone();
    proof {
        assert(r@ =~= v@);
    }
    r
}

impl Job {
    /// A run of `payloads` over agents that finished their handshake. All the
    /// per-agent vectors are parallel to `labels`.
    pub fn new(
        labels: Vec<String>,
        capacity: Vec<usize>,
        standbys: Vec<Vec<ChildAd>>,
        payloads: Vec<Vec<u8>>,
        speculative: bool,
    ) -> (r: Job)
        requires
            capacity@.len() == labels@.len(),
            standbys@.len() == labels@.len(),
        ensures
            r@.wf(),
            r@ == (JobModel {
                labels: texts(labels@),
                in_flight: Seq::new(labels@.len(), |a: int| 0usize),
                capacity: capacity@,
                standbys: rows(standbys@),
                alive: Seq::new(labels@.len(), |a: int| true),
                pending: Seq::new(payloads@.len(), |i: int| i as usize),
                assigned: Seq::new(payloads@.len(), |i: int| Seq::<usize>::empty()),
                results: Seq::new(payloads@.len(), |i: int| None),
                remaining: payloads@.len(),
                payloads: bytes(payloads@),
                speculative,
                out: Seq::empty(),
            }),
    {
        let agents: usize = labels.len();
        let tasks: usize = payloads.len();
        let mut in_flight: Vec<usize> = Vec::new();
        let mut alive: Vec<bool> = Vec::new();
        let mut a: usize = 0;
        while a < agents
            invariant
                a <= agents,
                in_flight@ == Seq::new(a as nat, |i: int| 0usize),
                alive@ == Seq::new(a as nat, |i: int| true),
            decreases agents - a,
        {
            in_flight.push(0);
            alive.push(true);
            a += 1;
            proof {
                assert(in_flight@ =~= Seq::new(a as nat, |i: int| 0usize));
                assert(alive@ =~= Seq::new(a as nat, |i: int| true));
            }
        }
        let mut pending: VecDeque<usize> = VecDeque::new();
        let mut assigned: Vec<Vec<usize>> = Vec::new();
        let mut results: Vec<Option<Outcome>> = Vec::new();
        proof {
            assert(pending@ =~= Seq::new(0, |i: int| i as usize));
        }
        let mut t: usize = 0;
        while t < tasks
            invariant
                t <= tasks,
                pending@ == Seq::new(t as nat, |i: int| i as usize),
                rows(assigned@) == Seq::new(t as nat, |i: int| Seq::<usize>::empty()),
                results@ == Seq::new(t as nat, |i: int| None::<Outcome>),
                assigned@.len() == t,
            decreases tasks - t,
        {
            let ghost before = assigned@;
            pending.push_back(t);
            assigned.push(Vec::new());
            results.push(None);
            t += 1;
            proof {
                assert(pending@ =~= Seq::new(t as nat, |i: int| i as usize));
                assert forall|i: int| 0 <= i < t implies rows(assigned@)[i]
                    == Seq::<usize>::empty() by {
                    if i < t - 1 {
                        assert(rows(before)[i] == Seq::<usize>::empty());
                        assert(assigned@[i] == before[i]);
                    } else {
                        assert(assigned@[i]@ =~= Seq::<usize>::empty());
                    }
                }
                assert(rows(assigned@) =~= Seq::new(t as nat, |i: int| Seq::<usize>::empty()));
                assert(results@ =~= Seq::new(t as nat, |i: int| None::<Outcome>));
            }
        }
        let r = Job {
            labels,
            in_flight,
            capacity,
            standbys,
            alive,
            pending,
            assigned,
            results,
            remaining: tasks,
            payloads,
            speculative,
            out: Vec::new(),
        };
        proof {
            let m = r@;
            assert(m.out =~= Seq::empty());
            assert(m.results =~= Seq::new(payloads@.len(), |i: int| None));
            lemma_open_bound(m.results, m.tasks() as int);
            assert forall|x: int| 0 <= x < m.agents() implies (#[trigger] m.in_flight[x]) as nat
                == load(m.assigned, x as usize) by {
                lemma_load_none(m.assigned, x as usize, m.tasks() as int);
            }
            assert forall|i: int|
                0 <= i < m.tasks() && (#[trigger] m.results[i]) is None && m.assigned[i].len()
                    == 0 implies m.pending.contains(i as usize) by {
                assert(m.pending[i] == i as usize);
            }
            assert(m.pending.no_duplicates());
        }
        r
    }

    /// Ask for a message to be sent.
    fn send(&mut self, agent: usize, message: ToAgent)
        ensures
            final(self)@ == old(self)@.doing(ActionModel::Send { agent, message: message@ }),
    {
        self.out.push(JobAction::Send { agent, message });
        proof {
            assert(self@.out =~= old(self)@.out.push(
                ActionModel::Send { agent, message: message@ },
            ));
        }
    }

    /// Ask for an event to be reported.
    fn emit(&mut self, event: Event)
        ensures
            final(self)@ == old(self)@.doing(ActionModel::Emit { event: event@ }),
    {
        self.out.push(JobAction::Emit(event));
        proof {
            assert(self@.out =~= old(self)@.out.push(ActionModel::Emit { event: event@ }));
        }
    }

    /// Report `agent` as being in `state`.
    fn report(&mut self, agent: usize, state: NodeState)
        requires
            old(self)@.wf(),
            agent < old(self)@.agents(),
        ensures
            final(self)@ == old(self)@.reporting(agent, state),
            final(self)@.wf(),
    {
        proof {
            self@.lemma_doing_wf(
                ActionModel::Emit {
                    event: EventModel::Node { host: self@.labels[agent as int], state },
                },
            );
        }
        let event = Event::node(self.labels[agent].as_str(), state);
        self.emit(event);
    }

    /// Take the actions asked for so far.
    pub fn take_actions(&mut self) -> (r: Vec<JobAction>)
        requires
            old(self)@.wf(),
        ensures
            actions(r@) == old(self)@.out,
            r@.len() == old(self).out@.len(),
            forall|k: int| 0 <= k < r@.len() ==> (#[trigger] r@[k]) == old(self).out@[k],
            final(self)@ == (JobModel { out: Seq::empty(), ..old(self)@ }),
            final(self)@.wf(),
    {
        let mut r: Vec<JobAction> = Vec::new();
        let ghost before = self@;
        r.append(&mut self.out);
        proof {
            assert(actions(r@) =~= before.out);
            assert(self@.out =~= Seq::empty());
            let s = self@;
            assert(s.partitioned()) by {
                assert forall|i: int|
                    0 <= i < s.tasks() && (#[trigger] s.results[i]) is None && s.assigned[i].len()
                        == 0 implies s.pending.contains(i as usize) by {
                    assert(before.results[i] is None);
                }
            }
            assert(s.counted()) by {
                assert forall|a: int| 0 <= a < s.agents() implies (#[trigger] s.in_flight[a]) as nat
                    == load(s.assigned, a as usize) by {
                    assert(before.in_flight[a] as nat == load(before.assigned, a as usize));
                }
            }
        }
        r
    }

    /// Fill an agent: hand it pending tasks up to its capacity, then, if
    /// speculation is on, let it race stragglers. A lost agent takes nothing.
    pub fn fill(&mut self, agent: usize)
        requires
            old(self)@.wf(),
            agent < old(self)@.agents(),
        ensures
            final(self)@ == old(self)@.filled(agent),
            final(self)@.wf(),
            same_facts(old(self)@, final(self)@),
    {
        proof {
            self@.lemma_filled_wf(agent);
        }
        self.assign_up_to_capacity(agent);
        if self.speculative {
            self.speculate(agent);
        }
    }

    /// Hand `agent` pending tasks up to its capacity. A lost agent takes nothing.
    fn assign_up_to_capacity(&mut self, agent: usize)
        requires
            old(self)@.wf(),
            agent < old(self)@.agents(),
        ensures
            final(self)@ == old(self)@.topped_up(agent),
            final(self)@.wf(),
    {
        let ghost start = self@;
        let ghost mut k: int = 0;
        proof {
            start.lemma_hand_none(agent);
        }
        while self.alive[agent] && self.in_flight[agent] < self.capacity[agent]
            && self.pending.len() > 0
            invariant
                start.wf(),
                self@.wf(),
                agent < start.agents(),
                0 <= k <= start.pending.len(),
                k <= start.free_slots(agent),
                self@ == start.handed(agent, k),
            decreases self.pending@.len(),
        {
            let ghost before = self@;
            proof {
                assert(self@.in_flight[agent as int] == start.in_flight[agent as int] + k);
                start.lemma_hand_next(agent, k);
                before.lemma_hand_one_wf(agent);
                assert(before.pending[0] < before.tasks());
            }
            let idx: usize = self.pending.pop_front().unwrap();
            let payload = copy_bytes(&self.payloads[idx]);
            self.send(agent, ToAgent::Assign { task_id: idx as u64, payload });
            self.assigned.set(idx, vec![agent]);
            let held: usize = self.in_flight[agent];
            self.in_flight.set(agent, held + 1);
            proof {
                let next = before.handed(agent, 1);
                assert(before.pending.take(1) =~= seq![idx]);
                assert(before.pending.take(1)[0] == idx);
                assert(self@.pending =~= next.pending);
                assert(self@.in_flight =~= next.in_flight);
                assert forall|i: int| 0 <= i < before.assigned.len() implies self@.assigned[i]
                    == next.assigned[i] by {
                    if i == idx {
                        assert(self@.assigned[i] =~= seq![agent]);
                    } else {
                        assert(!before.pending.take(1).contains(i as usize));
                        assert(self@.assigned[i] == before.assigned[i]);
                    }
                }
                assert(self@.assigned =~= next.assigned);
                assert(self@.out =~= next.out);
                assert(self@.labels == next.labels);
                assert(self@ == next);
                k = k + 1;
            }
        }
        proof {
            assert(self@.in_flight[agent as int] == start.in_flight[agent as int] + k);
        }
    }

    /// Fill `agent`'s free slots by re-running the oldest tasks that run on
    /// exactly one other agent, so each is raced at most twice.
    fn speculate(&mut self, agent: usize)
        requires
            old(self)@.wf(),
            agent < old(self)@.agents(),
        ensures
            final(self)@ == old(self)@.speculated(agent),
            final(self)@.wf(),
    {
        let ghost start = self@;
        let mut i: usize = 0;
        proof {
            start.lemma_race_none(agent);
        }
        while i < self.assigned.len() && self.alive[agent] && self.in_flight[agent]
            < self.capacity[agent]
            invariant
                start.wf(),
                agent < start.agents(),
                0 <= i <= start.tasks(),
                self@ == start.raced(agent, start.stragglers_below(agent, i as int)),
                self@.wf(),
                start.stragglers_below(agent, i as int).len() <= start.free_slots(agent),
                forall|j: int|
                    i <= j < start.tasks() ==> (#[trigger] self@.assigned[j]) == start.assigned[j],
            decreases start.tasks() - i,
        {
            let ghost before = self@;
            let ghost picks = start.stragglers_below(agent, i as int);
            assert(self@.assigned[i as int] == start.assigned[i as int]);
            assert(self@.in_flight[agent as int] == start.in_flight[agent as int] + picks.len());
            if self.assigned[i].len() == 1 && self.assigned[i][0] != agent {
                proof {
                    assert(start.straggling(agent, i as int));
                    start.lemma_straggler_member(agent, i as int, i as int);
                    assert(!picks.contains(i));
                    start.lemma_race_next(agent, picks, i);
                    before.lemma_race_one_wf(agent, i);
                }
                let first: usize = self.assigned[i][0];
                self.assigned.set(i, vec![first, agent]);
                let held: usize = self.in_flight[agent];
                self.in_flight.set(agent, held + 1);
                let payload = copy_bytes(&self.payloads[i]);
                self.send(agent, ToAgent::Assign { task_id: i as u64, payload });
                proof {
                    let next = before.raced(agent, seq![i]);
                    assert(self@.assigned[i as int] =~= before.assigned[i as int].push(agent));
                    assert(self@.assigned =~= next.assigned);
                    assert(self@.in_flight =~= next.in_flight);
                    assert(self@.out =~= next.out);
                    assert(self@ == next);
                }
            }
            i += 1;
        }
        proof {
            let n = start.tasks() as int;
            let picks = start.stragglers_below(agent, i as int);
            assert(self@.in_flight[agent as int] == start.in_flight[agent as int] + picks.len());
            start.lemma_straggler_prefix(agent, i as int, n);
            let all = start.stragglers_below(agent, n);
            assert(all.take(all.len() as int) =~= all);
        }
    }

    /// Record a terminal outcome. Returns the agents freed (the one that finished
    /// plus any that were racing the same task), or an empty list if the task is
    /// not running (a duplicate, dropped here so each task is resolved once).
    pub fn record(&mut self, task_id: TaskId, result: Outcome) -> (freed: Vec<usize>)
        requires
            old(self)@.wf(),
        ensures
            final(self)@.wf(),
            final(self)@ == old(self)@.on_record(task_id as int, result),
            freed@ == old(self)@.freed_by(task_id as int),
    {
        if task_id >= self.assigned.len() as u64 {
            return Vec::new();
        }
        let t: usize = task_id as usize;
        if self.assigned[t].len() == 0 {
            return Vec::new();
        }
        let ghost start = self@;
        proof {
            start.lemma_record_wf(t as int, result);
            assert(start.assigned[t as int].len() <= 2);
        }
        let mut freed: Vec<usize> = Vec::new();
        let mut k: usize = 0;
        proof {
            assert(freed@ =~= start.assigned[t as int].take(0));
            assert(start.in_flight =~= Seq::new(
                start.in_flight.len(),
                |a: int|
                    if freed@.contains(a as usize) {
                        (start.in_flight[a] - 1) as usize
                    } else {
                        start.in_flight[a]
                    },
            ));
        }
        while k < self.assigned[t].len()
            invariant
                start.wf(),
                t < start.tasks(),
                self.assigned@.len() == start.tasks(),
                self.assigned@[t as int]@ == start.assigned[t as int],
                start.running(t as int),
                k <= start.assigned[t as int].len(),
                freed@ == start.assigned[t as int].take(k as int),
                forall|j: int|
                    0 <= j < start.assigned[t as int].len() ==> start.in_flight[(
                    #[trigger] start.assigned[t as int][j]) as int] > 0,
                self@ == (JobModel {
                    in_flight: Seq::new(
                        start.in_flight.len(),
                        |a: int|
                            if freed@.contains(a as usize) {
                                (start.in_flight[a] - 1) as usize
                            } else {
                                start.in_flight[a]
                            },
                    ),
                    ..start
                }),
            decreases start.assigned[t as int].len() - k,
        {
            let ghost before = self@;
            let ghost freed_before = freed@;
            let agent: usize = self.assigned[t][k];
            proof {
                let runners = start.assigned[t as int];
                assert(agent == runners[k as int]);
                assert(agent < start.agents());
                assert(!freed_before.contains(agent)) by {
                    if freed_before.contains(agent) {
                        let j = freed_before.index_of(agent);
                        assert(runners[j] == runners[k as int]);
                    }
                }
                assert(start.in_flight[runners[k as int] as int] > 0);
                assert(before.in_flight[agent as int] == start.in_flight[agent as int]);
            }
            let held: usize = self.in_flight[agent];
            self.in_flight.set(agent, held - 1);
            freed.push(agent);
            k += 1;
            proof {
                assert(freed@ =~= start.assigned[t as int].take(k as int));
                let want = Seq::new(
                    start.in_flight.len(),
                    |a: int|
                        if freed@.contains(a as usize) {
                            (start.in_flight[a] - 1) as usize
                        } else {
                            start.in_flight[a]
                        },
                );
                assert forall|a: int| 0 <= a < want.len() implies self@.in_flight[a] == want[a] by {
                    let x = a as usize;
                    assert(freed@.contains(x) <==> freed_before.contains(x) || x == agent) by {
                        if freed_before.contains(x) {
                            let j = freed_before.index_of(x);
                            assert(freed@[j] == x);
                        }
                        if x == agent {
                            assert(freed@[freed_before.len() as int] == x);
                        }
                        if freed@.contains(x) && x != agent {
                            let j = freed@.index_of(x);
                            assert(freed_before[j] == x);
                        }
                    }
                    if a != agent {
                        assert(self@.in_flight[a] == before.in_flight[a]);
                    }
                }
                assert(self@.in_flight =~= want);
            }
        }
        self.assigned.set(t, Vec::new());
        self.results.set(t, Some(result));
        self.remaining -= 1;
        proof {
            let next = start.recorded(t as int, result);
            assert(freed@ =~= start.assigned[t as int]);
            assert(self@.assigned[t as int] =~= Seq::empty());
            assert(self@.assigned =~= next.assigned);
            assert(self@.results =~= next.results);
            assert(self@.in_flight =~= next.in_flight);
            assert(self@ == next);
        }
        freed
    }

    /// Mark `agent` lost and return the tasks that only it was running to the
    /// pending pool.
    fn requeue_lost(&mut self, agent: usize)
        requires
            old(self)@.wf(),
            agent < old(self)@.agents(),
        ensures
            final(self)@ == old(self)@.requeued(agent),
            final(self)@.wf(),
    {
        let ghost start = self@;
        proof {
            start.lemma_requeue_wf(agent);
        }
        self.alive.set(agent, false);
        let mut i: usize = 0;
        proof {
            assert(start.assigned =~= Seq::new(
                start.assigned.len(),
                |j: int|
                    if j < 0 {
                        without(start.assigned[j], agent)
                    } else {
                        start.assigned[j]
                    },
            ));
            assert(start.pending =~= start.pending + start.orphans_below(agent, 0));
        }
        while i < self.assigned.len()
            invariant
                start.wf(),
                agent < start.agents(),
                i <= start.tasks(),
                self.assigned@.len() == start.tasks(),
                self@ == (JobModel {
                    alive: start.alive.update(agent as int, false),
                    assigned: Seq::new(
                        start.assigned.len(),
                        |j: int|
                            if j < i {
                                without(start.assigned[j], agent)
                            } else {
                                start.assigned[j]
                            },
                    ),
                    pending: start.pending + start.orphans_below(agent, i as int),
                    ..start
                }),
            decreases start.tasks() - i,
        {
            let ghost before = self@;
            let ghost runners = start.assigned[i as int];
            assert(before.assigned[i as int] == runners);
            let mut kept: Vec<usize> = Vec::new();
            let mut k: usize = 0;
            while k < self.assigned[i].len()
                invariant
                    i < self.assigned@.len(),
                    self.assigned@[i as int]@ == runners,
                    self@ == before,
                    k <= runners.len(),
                    kept@ == without(runners.take(k as int), agent),
                decreases runners.len() - k,
            {
                let other: usize = self.assigned[i][k];
                proof {
                    let next = runners.take(k as int + 1);
                    assert(next.drop_last() =~= runners.take(k as int));
                    assert(next.last() == other);
                }
                if other != agent {
                    kept.push(other);
                }
                k += 1;
            }
            let ghost held = self.assigned@;
            assert(runners.take(k as int) =~= runners);
            let orphaned = self.assigned[i].len() > 0 && kept.len() == 0;
            self.assigned.set(i, kept);
            if orphaned {
                self.pending.push_back(i);
            }
            i += 1;
            proof {
                let want = Seq::new(
                    start.assigned.len(),
                    |j: int|
                        if j < i {
                            without(start.assigned[j], agent)
                        } else {
                            start.assigned[j]
                        },
                );
                assert forall|j: int| 0 <= j < want.len() implies self@.assigned[j] == want[j] by {
                    if j != i - 1 {
                        assert(self.assigned@[j] == held[j]);
                        assert(before.assigned[j] == held[j]@);
                    }
                }
                assert(self@.assigned =~= want);
                assert(self@.pending =~= start.pending + start.orphans_below(agent, i as int));
            }
        }
        self.in_flight.set(agent, 0);
        proof {
            let next = start.requeued(agent);
            assert(self@.assigned =~= next.assigned);
            assert(self@ == next);
        }
    }

    /// Whether any agent is still alive to take work.
    pub fn any_alive(&self) -> (r: bool)
        ensures
            r == exists|a: int| 0 <= a < self@.alive.len() && #[trigger] self@.alive[a],
    {
        let mut a: usize = 0;
        while a < self.alive.len()
            invariant
                a <= self.alive@.len(),
                forall|b: int| 0 <= b < a ==> !(#[trigger] self@.alive[b]),
            decreases self.alive@.len() - a,
        {
            if self.alive[a] {
                assert(self@.alive[a as int]);
                return true;
            }
            a += 1;
        }
        false
    }

    /// Promote every standby a survivor holds, so a node the dead relay was the
    /// primary path to is brought up on its alternate path.
    fn reroute(&mut self)
        requires
            old(self)@.wf(),
        ensures
            final(self)@ == old(self)@.rerouted(),
            final(self)@.wf(),
    {
        let ghost start = self@;
        proof {
            start.lemma_rerouted_wf(start.agents() as int);
            assert(start.rerouted_below(0).standbys =~= start.standbys);
            assert(start.rerouted_below(0).out =~= start.out);
        }
        let mut a: usize = 0;
        while a < self.labels.len()
            invariant
                start.wf(),
                a <= start.agents(),
                self@ == start.rerouted_below(a as int),
            decreases start.agents() - a,
        {
            let ghost before = self@;
            let ghost mine = start.standbys[a as int];
            if self.alive[a] {
                assert(before.standbys[a as int] == mine);
                let mut j: usize = 0;
                proof {
                    assert(before.out =~= before.out + promotions(a, mine).take(0));
                    assert(self@.standbys.len() == start.agents());
                    assert(self@.standbys[a as int] == self.standbys@[a as int]@);
                }
                while j < self.standbys[a].len()
                    invariant
                        start.wf(),
                        a < start.agents(),
                        before == start.rerouted_below(a as int),
                        before.standbys[a as int] == mine,
                        mine == start.standbys[a as int],
                        j <= mine.len(),
                        self.standbys@.len() == start.agents(),
                        self.standbys@[a as int]@ == mine,
                        self@ == (JobModel {
                            out: before.out + promotions(a, mine).take(j as int),
                            ..before
                        }),
                    decreases mine.len() - j,
                {
                    assert(self.standbys@[a as int]@ == mine);
                    let child = self.standbys[a][j].label().to_owned();
                    self.send(a, ToAgent::Promote { child });
                    j += 1;
                    proof {
                        assert(self@.out =~= before.out + promotions(a, mine).take(j as int));
                        assert(self@.standbys.len() == start.agents());
                        assert(self@.standbys[a as int] == self.standbys@[a as int]@);
                    }
                }
                let ghost held = self.standbys@;
                self.standbys.set(a, Vec::new());
                proof {
                    assert(self.standbys@[a as int]@ =~= Seq::empty());
                    let next = start.rerouted_below(a as int + 1);
                    assert(promotions(a, mine).take(j as int) =~= promotions(a, mine));
                    assert(self@.out =~= next.out);
                    assert forall|b: int| 0 <= b < held.len() implies self@.standbys[b]
                        == next.standbys[b] by {
                        if b != a {
                            assert(self.standbys@[b] == held[b]);
                            assert(before.standbys[b] == rows(held)[b]);
                        }
                    }
                    assert(self@.standbys =~= next.standbys);
                    assert(self@ == next);
                }
            } else {
                proof {
                    let next = start.rerouted_below(a as int + 1);
                    assert(self@.standbys =~= next.standbys);
                    assert(self@ == next);
                }
            }
            a += 1;
        }
    }

    /// Fold one event into the run: record a terminal, surface a task or subtree
    /// event, fold in a relay's new capacity, or react to a lost agent by
    /// rerouting onto standbys and feeding the survivors.
    pub fn on_event(&mut self, event: AgentEvent) -> (r: Result<(), JobError>)
        requires
            old(self)@.wf(),
            about(event) < old(self)@.agents(),
        ensures
            final(self)@.wf(),
            match old(self)@.after(event) {
                Ok(next) => r is Ok && final(self)@ == next,
                Err(e) => r == Err::<(), JobError>(e) && final(self)@ == old(self)@,
            },
    {
        proof {
            self@.law_events_keep_the_invariant(event);
        }
        match event {
            AgentEvent::Lost(agent) => {
                self.report(agent, NodeState::Lost);
                self.requeue_lost(agent);
                self.reroute();
                let ghost start = self@;
                let mut survivor: usize = 0;
                while survivor < self.labels.len()
                    invariant
                        start.wf(),
                        self@.wf(),
                        survivor <= start.agents(),
                        self@ == start.filled_below(survivor as int),
                        self@.agents() == start.agents(),
                    decreases start.agents() - survivor,
                {
                    self.fill(survivor);
                    survivor += 1;
                }
                Ok(())
            },
            AgentEvent::Message(agent, message) => match message {
                FromAgent::Ready { .. } => Err(JobError::RepeatedHandshake),
                FromAgent::Discovered { .. } => Err(JobError::RepeatedHandshake),
                FromAgent::Capacity { slots } => {
                    proof {
                        self@.lemma_capacity_wf(agent, slots);
                    }
                    self.capacity.set(agent, slots);
                    self.put_to_work(agent);
                    Ok(())
                },
                FromAgent::Started { task_id } => {
                    if task_id < self.assigned.len() as u64 && self.assigned[task_id as usize].len()
                        > 0 {
                        let host = self.labels[agent].clone();
                        self.emit(Event::TaskStarted { host, task: task_id });
                    }
                    Ok(())
                },
                FromAgent::Completed { task_id, output, via } => {
                    self.finish(task_id, Ok(output), true, agent, via);
                    Ok(())
                },
                FromAgent::Failed { task_id, error, via } => {
                    self.finish(task_id, Err(error), false, agent, via);
                    Ok(())
                },
                FromAgent::Observe(observed) => {
                    let seen = observed.prefix_host(self.labels[agent].as_str());
                    self.emit(seen);
                    Ok(())
                },
                FromAgent::Pong => Ok(()),
            },
        }
    }

    /// Record a terminal outcome, report it, and refill every agent it freed (the
    /// finisher plus any that were racing the same task). A freed agent left with
    /// no work is reported idle.
    fn finish(&mut self, task_id: TaskId, result: Outcome, ok: bool, completer: usize, via: String)
        requires
            old(self)@.wf(),
            completer < old(self)@.agents(),
        ensures
            final(self)@ == old(self)@.finished(task_id, result, ok, completer, via@),
            final(self)@.wf(),
    {
        let ghost start = self@;
        proof {
            start.lemma_finished_wf(task_id, result, ok, completer, via@);
        }
        let freed = self.record(task_id, result);
        if freed.len() == 0 {
            return;
        }
        let host = join_label(self.labels[completer].as_str(), via.as_str());
        proof {
            self@.lemma_doing_wf(
                ActionModel::Emit {
                    event: EventModel::TaskFinished { host: host@, task: task_id, ok },
                },
            );
            assert(start.assigned[task_id as int] == freed@);
            assert forall|k: int| 0 <= k < freed@.len() implies (#[trigger] freed@[k])
                < start.agents() by {
                assert(start.assigned[task_id as int][k] < start.agents());
            }
        }
        self.emit(Event::TaskFinished { host, task: task_id, ok });
        let ghost base = self@;
        let mut k: usize = 0;
        proof {
            assert(freed@.take(0) =~= Seq::empty());
        }
        while k < freed.len()
            invariant
                base.wf(),
                self@.wf(),
                k <= freed@.len(),
                forall|j: int| 0 <= j < freed@.len() ==> (#[trigger] freed@[j]) < base.agents(),
                self@ == base.refilled(freed@.take(k as int)),
                self@.agents() == base.agents(),
            decreases freed@.len() - k,
        {
            let agent: usize = freed[k];
            proof {
                let next = freed@.take(k as int + 1);
                assert(next.drop_last() =~= freed@.take(k as int));
                assert(next.last() == agent);
            }
            self.fill(agent);
            if self.in_flight[agent] == 0 {
                self.report(agent, NodeState::Idle);
            }
            k += 1;
        }
        proof {
            assert(freed@.take(k as int) =~= freed@);
        }
    }

    /// Fill `agent`, and report it working if it has any task.
    fn put_to_work(&mut self, agent: usize)
        requires
            old(self)@.wf(),
            agent < old(self)@.agents(),
        ensures
            final(self)@ == old(self)@.put_to_work(agent),
            final(self)@.wf(),
            same_facts(old(self)@, final(self)@),
    {
        self.fill(agent);
        if self.in_flight[agent] > 0 {
            self.report(agent, NodeState::Working);
        }
    }

    /// Announce the run and put every agent to work.
    pub fn start(&mut self)
        requires
            old(self)@.wf(),
        ensures
            final(self)@ == old(self)@.doing(
                ActionModel::Emit {
                    event: EventModel::RunStarted { tasks: old(self)@.tasks() as usize },
                },
            ).put_to_work_below(old(self)@.agents() as int),
            final(self)@.wf(),
            same_facts(old(self)@, final(self)@),
    {
        let tasks: usize = self.payloads.len();
        proof {
            self@.lemma_doing_wf(ActionModel::Emit { event: EventModel::RunStarted { tasks } });
        }
        self.emit(Event::RunStarted { tasks });
        let ghost base = self@;
        let mut a: usize = 0;
        while a < self.labels.len()
            invariant
                base.wf(),
                self@.wf(),
                a <= base.agents(),
                self@ == base.put_to_work_below(a as int),
                same_facts(base, self@),
            decreases base.agents() - a,
        {
            self.put_to_work(a);
            a += 1;
        }
    }

    /// Splice in a node that finished its handshake while the run was going, and
    /// put it to work. It holds no standbys. Agents are only ever appended, so the
    /// others keep their numbers.
    pub fn join(&mut self, label: String, capacity: usize) -> (agent: usize)
        requires
            old(self)@.wf(),
            old(self)@.agents() < usize::MAX,
        ensures
            agent == old(self)@.agents(),
            final(self)@ == old(self)@.joined(label@, capacity).put_to_work(agent),
            final(self)@.wf(),
    {
        let ghost start = self@;
        let agent: usize = self.labels.len();
        self.labels.push(label);
        self.capacity.push(capacity);
        self.standbys.push(Vec::new());
        self.alive.push(true);
        self.in_flight.push(0);
        proof {
            let next = start.joined(label@, capacity);
            assert(self@.labels =~= next.labels);
            assert(self.standbys@[agent as int]@ =~= Seq::empty());
            assert(self@.standbys =~= next.standbys);
            assert(self@ == next);
            start.lemma_joined_wf(label@, capacity);
        }
        self.put_to_work(agent);
        agent
    }

    /// End the run: report every live agent done, in order, and ask each to shut
    /// down.
    pub fn close(&mut self)
        requires
            old(self)@.wf(),
        ensures
            final(self)@ == (JobModel {
                out: old(self)@.out + old(self)@.farewells_below(old(self)@.agents() as int, true)
                    + old(self)@.farewells_below(old(self)@.agents() as int, false),
                ..old(self)@
            }),
            final(self)@.wf(),
    {
        let ghost start = self@;
        let mut a: usize = 0;
        proof {
            assert(start.out =~= start.out + start.farewells_below(0, true));
        }
        while a < self.labels.len()
            invariant
                start.wf(),
                a <= start.agents(),
                self@ == (JobModel { out: start.out + start.farewells_below(a as int, true), ..start }),
            decreases start.agents() - a,
        {
            if self.alive[a] {
                let event = Event::node(self.labels[a].as_str(), NodeState::Done);
                self.emit(event);
            }
            a += 1;
            proof {
                assert(self@.out =~= start.out + start.farewells_below(a as int, true));
            }
        }
        let ghost half = self@.out;
        let mut b: usize = 0;
        proof {
            assert(half =~= half + start.farewells_below(0, false));
        }
        while b < self.labels.len()
            invariant
                start.wf(),
                b <= start.agents(),
                self@ == (JobModel { out: half + start.farewells_below(b as int, false), ..start }),
            decreases start.agents() - b,
        {
            if self.alive[b] {
                self.send(b, ToAgent::Shutdown);
            }
            b += 1;
            proof {
                assert(self@.out =~= half + start.farewells_below(b as int, false));
            }
        }
    }

    /// Surface what still comes up while the agents shut down: a subtree's last
    /// events are reported, every other late message is ignored.
    pub fn trailing(&mut self, event: AgentEvent)
        requires
            old(self)@.wf(),
            about(event) < old(self)@.agents(),
        ensures
            final(self)@.wf(),
            final(self)@ == match event {
                AgentEvent::Message(agent, FromAgent::Observe(observed)) => old(self)@.doing(
                    ActionModel::Emit {
                        event: observed@.prefixed(old(self)@.labels[agent as int]),
                    },
                ),
                _ => old(self)@,
            },
    {
        if let AgentEvent::Message(agent, FromAgent::Observe(observed)) = event {
            let seen = observed.prefix_host(self.labels[agent].as_str());
            self.emit(seen);
        }
    }

    /// The outcomes in input order, once every task has one.
    pub fn into_results(self) -> (r: Vec<Outcome>)
        requires
            self@.wf(),
            self@.remaining == 0,
        ensures
            r@.len() == self@.tasks(),
            forall|i: int| 0 <= i < r@.len() ==> self@.results[i] == Some(#[trigger] r@[i]),
    {
        proof {
            self@.law_nothing_open_means_all_resolved();
        }
        let mut left = self.results;
        let ghost all = left@;
        let mut reversed: Vec<Outcome> = Vec::new();
        while left.len() > 0
            invariant
                left@.len() + reversed@.len() == all.len(),
                left@ == all.take(left@.len() as int),
                forall|i: int| 0 <= i < all.len() ==> (#[trigger] all[i]) is Some,
                forall|j: int|
                    0 <= j < reversed@.len() ==> all[all.len() - 1 - j] == Some(
                        #[trigger] reversed@[j],
                    ),
            decreases left@.len(),
        {
            let ghost before = left@;
            let last = left.pop().unwrap();
            proof {
                assert(last == all[before.len() - 1]);
                assert(left@ =~= all.take(left@.len() as int));
            }
            match last {
                Some(outcome) => {
                    reversed.push(outcome);
                },
                None => {},
            }
        }
        let ghost backwards = reversed@;
        let mut r: Vec<Outcome> = Vec::new();
        while reversed.len() > 0
            invariant
                reversed@.len() + r@.len() == all.len(),
                backwards.len() == all.len(),
                reversed@ == backwards.take(reversed@.len() as int),
                forall|j: int|
                    0 <= j < backwards.len() ==> all[all.len() - 1 - j] == Some(
                        #[trigger] backwards[j],
                    ),
                forall|i: int| 0 <= i < r@.len() ==> all[i] == Some(#[trigger] r@[i]),
            decreases reversed@.len(),
        {
            let ghost before = reversed@;
            let outcome = reversed.pop().unwrap();
            proof {
                let j = before.len() - 1;
                assert(outcome == backwards[j]);
                assert(all[all.len() - 1 - j] == Some(backwards[j]));
                assert(reversed@ =~= backwards.take(reversed@.len() as int));
            }
            r.push(outcome);
        }
        r
    }
}

impl JobModel {
    /// The run with one more agent, alive and idle.
    pub open spec fn joined(self, label: Seq<char>, capacity: usize) -> JobModel {
        JobModel {
            labels: self.labels.push(label),
            capacity: self.capacity.push(capacity),
            standbys: self.standbys.push(Seq::empty()),
            alive: self.alive.push(true),
            in_flight: self.in_flight.push(0),
            ..self
        }
    }

    /// What ends the run for the live agents below `n`, in order: the report that
    /// each is done, or the request that each shut down.
    pub open spec fn farewells_below(self, n: int, report: bool) -> Seq<ActionModel>
        decreases n,
    {
        if n <= 0 {
            Seq::empty()
        } else if self.alive[n - 1] {
            self.farewells_below(n - 1, report).push(
                if report {
                    ActionModel::Emit {
                        event: EventModel::Node {
                            host: self.labels[n - 1],
                            state: NodeState::Done,
                        },
                    }
                } else {
                    ActionModel::Send { agent: (n - 1) as usize, message: ToAgentModel::Shutdown }
                },
            )
        } else {
            self.farewells_below(n - 1, report)
        }
    }

    proof fn lemma_joined_wf(self, label: Seq<char>, capacity: usize)
        requires
            self.wf(),
            self.agents() < usize::MAX,
        ensures
            self.joined(label, capacity).wf(),
    {
        let s = self.joined(label, capacity);
        assert forall|i: int| 0 <= i < s.tasks() implies (#[trigger] s.assigned[i]).len() <= 2
            && s.assigned[i].no_duplicates() && forall|k: int|
            0 <= k < s.assigned[i].len() ==> (#[trigger] s.assigned[i][k]) < s.agents()
                && s.alive[s.assigned[i][k] as int] by {
            assert(self.assigned[i] == s.assigned[i]);
        }
        assert forall|a: int| 0 <= a < s.agents() implies (#[trigger] s.in_flight[a]) as nat == load(
            s.assigned,
            a as usize,
        ) by {
            if a == self.agents() {
                assert forall|i: int| 0 <= i < s.tasks() implies !(
                #[trigger] s.assigned[i]).contains(a as usize) by {
                    if s.assigned[i].contains(a as usize) {
                        let k = self.assigned[i].index_of(a as usize);
                        assert(self.assigned[i][k] < self.agents());
                    }
                }
                lemma_load_none(s.assigned, a as usize, s.tasks() as int);
            } else {
                assert(self.in_flight[a] as nat == load(self.assigned, a as usize));
            }
        }
        assert(s.partitioned()) by {
            assert forall|i: int|
                0 <= i < s.tasks() && (#[trigger] s.results[i]) is None && s.assigned[i].len()
                    == 0 implies s.pending.contains(i as usize) by {
                assert(self.results[i] is None);
            }
        }
    }

    /// A node that joins a run finds every open task where it was: joining only
    /// adds an idle agent.
    pub proof fn law_joining_keeps_the_run(self, label: Seq<char>, capacity: usize)
        requires
            self.wf(),
            self.agents() < usize::MAX,
        ensures
            self.joined(label, capacity).wf(),
            self.joined(label, capacity).put_to_work(self.agents() as usize).wf(),
            self.joined(label, capacity).put_to_work(self.agents() as usize).results
                == self.results,
            self.joined(label, capacity).put_to_work(self.agents() as usize).remaining
                == self.remaining,
            self.joined(label, capacity).put_to_work(self.agents() as usize).payloads
                == self.payloads,
    {
        self.lemma_joined_wf(label, capacity);
        self.joined(label, capacity).lemma_put_to_work_wf(self.agents() as usize);
    }
}

impl JobModel {
    /// The run after `events` in turn, unless one of them makes it be abandoned.
    pub open spec fn ran(self, events: Seq<AgentEvent>) -> Option<JobModel>
        decreases events.len(),
    {
        if events.len() == 0 {
            Some(self)
        } else {
            match self.ran(events.drop_last()) {
                None => None,
                Some(before) => match before.after(events.last()) {
                    Ok(next) => Some(next),
                    Err(_) => None,
                },
            }
        }
    }

    /// Whether every event is about an agent of the run.
    pub open spec fn concerns(self, events: Seq<AgentEvent>) -> bool {
        forall|k: int| 0 <= k < events.len() ==> about(#[trigger] events[k]) < self.agents()
    }

    /// However the events fall, the invariant holds after them, and the inputs and
    /// agents are still the same.
    pub proof fn law_the_invariant_survives_any_history(self, events: Seq<AgentEvent>)
        requires
            self.wf(),
            self.concerns(events),
        ensures
            self.ran(events) matches Some(next) ==> next.wf() && next.labels == self.labels
                && next.payloads == self.payloads,
        decreases events.len(),
    {
        if events.len() > 0 {
            let earlier = events.drop_last();
            assert forall|k: int| 0 <= k < earlier.len() implies about(#[trigger] earlier[k])
                < self.agents() by {
                assert(events[k] == earlier[k]);
            }
            self.law_the_invariant_survives_any_history(earlier);
            match self.ran(earlier) {
                None => {},
                Some(before) => {
                    assert(about(events[events.len() - 1]) < self.agents());
                    before.law_events_keep_the_invariant(events.last());
                },
            }
        }
    }

    /// No outcome is made up or mixed up: whatever stands for a task after a run
    /// was reported for that very task by one of the events.
    pub proof fn law_outcomes_come_from_agents(self, events: Seq<AgentEvent>, task: int) -> (k: int)
        requires
            self.wf(),
            self.concerns(events),
            self.ran(events) is Some,
            0 <= task < self.tasks(),
            self.results[task] is None,
            self.ran(events)->0.results[task] is Some,
        ensures
            0 <= k < events.len(),
            Self::reported(events[k]) matches Some((id, outcome)) && id == task && self.ran(
                events,
            )->0.results[task] == Some(outcome),
        decreases events.len(),
    {
        let earlier = events.drop_last();
        assert forall|k: int| 0 <= k < earlier.len() implies about(#[trigger] earlier[k])
            < self.agents() by {
            assert(events[k] == earlier[k]);
        }
        self.law_the_invariant_survives_any_history(earlier);
        let before = self.ran(earlier)->0;
        let last = events.last();
        assert(about(events[events.len() - 1]) < self.agents());
        before.law_first_outcome_stands(last);
        if before.results[task] is Some {
            let k = self.law_outcomes_come_from_agents(earlier, task);
            assert(events[k] == earlier[k]);
            k
        } else {
            events.len() - 1
        }
    }

    /// The first outcome stands: once a task is resolved nothing that happens later
    /// changes its outcome.
    pub proof fn law_resolved_stays_resolved(self, events: Seq<AgentEvent>, task: int)
        requires
            self.wf(),
            self.concerns(events),
            self.ran(events) is Some,
            0 <= task < self.tasks(),
            self.results[task] is Some,
        ensures
            self.ran(events)->0.results[task] == self.results[task],
        decreases events.len(),
    {
        if events.len() > 0 {
            let earlier = events.drop_last();
            assert forall|k: int| 0 <= k < earlier.len() implies about(#[trigger] earlier[k])
                < self.agents() by {
                assert(events[k] == earlier[k]);
            }
            self.law_the_invariant_survives_any_history(earlier);
            self.law_resolved_stays_resolved(earlier, task);
            let before = self.ran(earlier)->0;
            assert(about(events[events.len() - 1]) < self.agents());
            before.law_first_outcome_stands(events.last());
        }
    }
}

impl JobModel {
    /// Whether agent `a` could not take another task: it is lost or at its capacity.
    pub open spec fn occupied(self, a: int) -> bool {
        !self.alive[a] || self.in_flight[a] >= self.capacity[a]
    }

    /// Whether no live agent with a free slot is left without work while tasks wait.
    pub open spec fn busy(self) -> bool {
        self.pending.len() == 0 || forall|a: int|
            0 <= a < self.agents() ==> #[trigger] self.occupied(a)
    }

    /// Filling an agent leaves it occupied or nothing waiting, and frees no other.
    proof fn lemma_filled_occupies(self, agent: usize)
        requires
            self.wf(),
            agent < self.agents(),
        ensures
            self.filled(agent).pending.len() == 0 || self.filled(agent).occupied(agent as int),
            self.pending.len() == 0 ==> self.filled(agent).pending.len() == 0,
            forall|b: int|
                0 <= b < self.agents() && #[trigger] self.occupied(b) ==> self.filled(
                    agent,
                ).occupied(b),
    {
        self.lemma_filled_wf(agent);
        self.lemma_topped_up_wf(agent);
        let topped = self.topped_up(agent);
        let next = self.filled(agent);
        assert(next.pending == topped.pending);
        assert forall|b: int| 0 <= b < self.agents() && #[trigger] self.occupied(b) implies next.occupied(
            b,
        ) by {
            if b != agent {
                assert(next.in_flight[b] == self.in_flight[b]);
            }
        }
    }

    proof fn lemma_fill_all_busy(self, n: int)
        requires
            self.wf(),
            0 <= n <= self.agents(),
        ensures
            self.filled_below(n).pending.len() == 0 || forall|a: int|
                0 <= a < n ==> #[trigger] self.filled_below(n).occupied(a),
        decreases n,
    {
        if n > 0 {
            self.lemma_fill_all_busy(n - 1);
            self.lemma_filled_below_wf(n - 1);
            let before = self.filled_below(n - 1);
            before.lemma_filled_occupies((n - 1) as usize);
            let next = self.filled_below(n);
            assert(next == before.filled((n - 1) as usize));
            if next.pending.len() > 0 {
                assert forall|a: int| 0 <= a < n implies #[trigger] next.occupied(a) by {
                    if a < n - 1 {
                        assert(before.occupied(a));
                    }
                }
            }
        }
    }

    proof fn lemma_refilled_busy(self, freed: Seq<usize>)
        requires
            self.wf(),
            forall|k: int| 0 <= k < freed.len() ==> (#[trigger] freed[k]) < self.agents(),
        ensures
            self.pending.len() == 0 ==> self.refilled(freed).pending.len() == 0,
            self.refilled(freed).pending.len() == 0 || forall|k: int|
                0 <= k < freed.len() ==> self.refilled(freed).occupied(
                    (#[trigger] freed[k]) as int,
                ),
            forall|b: int|
                0 <= b < self.agents() && #[trigger] self.occupied(b) ==> self.refilled(
                    freed,
                ).occupied(b),
        decreases freed.len(),
    {
        if freed.len() > 0 {
            let agent = freed.last();
            let rest = freed.drop_last();
            assert forall|k: int| 0 <= k < rest.len() implies (#[trigger] rest[k])
                < self.agents() by {
                assert(rest[k] == freed[k]);
            }
            self.lemma_refilled_busy(rest);
            self.lemma_refilled_wf(rest);
            let before = self.refilled(rest);
            assert(freed[freed.len() - 1] < self.agents());
            before.lemma_filled_wf(agent);
            before.lemma_filled_occupies(agent);
            let filled = before.filled(agent);
            let next = self.refilled(freed);
            assert forall|b: int| 0 <= b < self.agents() implies next.occupied(b)
                == filled.occupied(b) by {}
            if next.pending.len() > 0 {
                assert forall|k: int| 0 <= k < freed.len() implies next.occupied(
                    (#[trigger] freed[k]) as int,
                ) by {
                    if k < rest.len() {
                        assert(rest[k] == freed[k]);
                        assert(before.occupied(rest[k] as int));
                        assert(filled.occupied(rest[k] as int));
                    }
                }
            }
            assert forall|b: int| 0 <= b < self.agents() && #[trigger] self.occupied(
                b,
            ) implies next.occupied(b) by {
                assert(before.occupied(b));
                assert(filled.occupied(b));
            }
        }
    }

    proof fn lemma_finished_busy(
        self,
        task: TaskId,
        result: Outcome,
        ok: bool,
        completer: usize,
        via: Seq<char>,
    )
        requires
            self.wf(),
            self.busy(),
            completer < self.agents(),
        ensures
            self.finished(task, result, ok, completer, via).busy(),
    {
        if self.running(task as int) {
            let t = task as int;
            let freed = self.assigned[t];
            self.lemma_record_wf(t, result);
            let recorded = self.recorded(t, result);
            let event = EventModel::TaskFinished {
                host: joined_label(self.labels[completer as int], via),
                task,
                ok,
            };
            recorded.lemma_doing_wf(ActionModel::Emit { event });
            let told = recorded.doing(ActionModel::Emit { event });
            assert forall|k: int| 0 <= k < freed.len() implies (#[trigger] freed[k])
                < self.agents() by {
                assert(self.assigned[t][k] < self.agents());
            }
            told.lemma_refilled_busy(freed);
            told.lemma_refilled_wf(freed);
            let next = told.refilled(freed);
            if next.pending.len() > 0 {
                assert(self.pending.len() > 0);
                assert forall|a: int| 0 <= a < next.agents() implies #[trigger] next.occupied(a) by {
                    if freed.contains(a as usize) {
                        let k = freed.index_of(a as usize);
                        assert(freed[k] == a as usize);
                        assert(next.occupied(freed[k] as int));
                    } else {
                        assert(self.occupied(a));
                        assert(told.occupied(a));
                    }
                }
            }
        }
    }

    proof fn lemma_lost_busy(self, agent: usize)
        requires
            self.wf(),
            agent < self.agents(),
        ensures
            self.after(AgentEvent::Lost(agent)) is Ok,
            self.after(AgentEvent::Lost(agent))->Ok_0.busy(),
    {
        let a = self.reporting(agent, NodeState::Lost);
        self.lemma_doing_wf(
            ActionModel::Emit {
                event: EventModel::Node {
                    host: self.labels[agent as int],
                    state: NodeState::Lost,
                },
            },
        );
        a.lemma_requeue_wf(agent);
        let b = a.requeued(agent);
        b.lemma_rerouted_wf(b.agents() as int);
        let c = b.rerouted();
        let n = c.agents() as int;
        c.lemma_fill_all_busy(n);
        c.lemma_filled_below_wf(n);
        assert(c.filled_below(n).agents() == n);
        assert(c.filled_below(n).busy());
        assert(self.after(AgentEvent::Lost(agent)) == Ok::<JobModel, JobError>(c.filled_below(n)));
    }

    proof fn lemma_doing_busy(self, action: ActionModel)
        requires
            self.wf(),
            self.busy(),
        ensures
            self.doing(action).busy(),
    {
        let next = self.doing(action);
        if next.pending.len() > 0 {
            assert forall|a: int| 0 <= a < next.agents() implies #[trigger] next.occupied(a) by {
                assert(self.occupied(a));
            }
        }
    }

    /// Work never waits for a free agent: if no live agent had a free slot while
    /// tasks waited before an event, none has after it.
    pub proof fn law_no_live_agent_idles_while_work_waits(self, event: AgentEvent)
        requires
            self.wf(),
            self.busy(),
            about(event) < self.agents(),
        ensures
            self.after(event) matches Ok(next) ==> next.busy(),
    {
        match event {
            AgentEvent::Lost(agent) => {
                self.lemma_lost_busy(agent);
            },
            AgentEvent::Message(agent, message) => match message {
                FromAgent::Capacity { slots } => {
                    self.lemma_capacity_wf(agent, slots);
                    let grown = JobModel {
                        capacity: self.capacity.update(agent as int, slots),
                        ..self
                    };
                    grown.lemma_filled_wf(agent);
                    grown.lemma_filled_occupies(agent);
                    let filled = grown.filled(agent);
                    let next = grown.put_to_work(agent);
                    if next.pending.len() > 0 {
                        assert forall|a: int| 0 <= a < next.agents() implies #[trigger] next.occupied(
                            a,
                        ) by {
                            if a != agent {
                                assert(self.occupied(a));
                                assert(grown.occupied(a));
                            }
                            assert(filled.occupied(a));
                        }
                    }
                },
                FromAgent::Started { task_id } => {
                    self.lemma_doing_busy(
                        ActionModel::Emit {
                            event: EventModel::TaskStarted {
                                host: self.labels[agent as int],
                                task: task_id,
                            },
                        },
                    );
                },
                FromAgent::Completed { task_id, output, via } => {
                    self.lemma_finished_busy(task_id, Ok(output), true, agent, via@);
                },
                FromAgent::Failed { task_id, error, via } => {
                    self.lemma_finished_busy(task_id, Err(error), false, agent, via@);
                },
                FromAgent::Observe(observed) => {
                    self.lemma_doing_busy(
                        ActionModel::Emit {
                            event: observed@.prefixed(self.labels[agent as int]),
                        },
                    );
                },
                _ => {},
            },
        }
    }
}

impl JobModel {
    proof fn lemma_put_to_work_occupies(self, agent: usize)
        requires
            self.wf(),
            agent < self.agents(),
        ensures
            self.put_to_work(agent).pending.len() == 0 || self.put_to_work(agent).occupied(
                agent as int,
            ),
            forall|b: int|
                0 <= b < self.agents() && #[trigger] self.occupied(b) ==> self.put_to_work(
                    agent,
                ).occupied(b),
            self.pending.len() == 0 ==> self.put_to_work(agent).pending.len() == 0,
    {
        self.lemma_filled_wf(agent);
        self.lemma_filled_occupies(agent);
        let filled = self.filled(agent);
        let next = self.put_to_work(agent);
        assert forall|b: int| 0 <= b < self.agents() && #[trigger] self.occupied(b) implies next.occupied(
            b,
        ) by {
            assert(filled.occupied(b));
        }
        if next.pending.len() > 0 {
            assert(filled.occupied(agent as int));
        }
    }

    /// Once the first `n` agents have been put to work, none of them could take
    /// another task while one waits; so a run starts out with no agent idle that
    /// could work.
    pub proof fn law_a_run_starts_busy(self, n: int)
        requires
            self.wf(),
            0 <= n <= self.agents(),
        ensures
            self.put_to_work_below(n).wf(),
            self.put_to_work_below(n).agents() == self.agents(),
            self.put_to_work_below(n).pending.len() == 0 || forall|a: int|
                0 <= a < n ==> #[trigger] self.put_to_work_below(n).occupied(a),
            n == self.agents() ==> self.put_to_work_below(n).busy(),
        decreases n,
    {
        if n > 0 {
            self.law_a_run_starts_busy(n - 1);
            let before = self.put_to_work_below(n - 1);
            let agent = (n - 1) as usize;
            before.lemma_put_to_work_wf(agent);
            before.lemma_put_to_work_occupies(agent);
            let next = self.put_to_work_below(n);
            if next.pending.len() > 0 {
                assert forall|a: int| 0 <= a < n implies #[trigger] next.occupied(a) by {
                    if a < n - 1 {
                        assert(before.occupied(a));
                    }
                }
            }
        }
    }

    /// A node that joins leaves no agent idle that could work.
    pub proof fn law_a_join_keeps_agents_busy(self, label: Seq<char>, capacity: usize)
        requires
            self.wf(),
            self.busy(),
            self.agents() < usize::MAX,
        ensures
            self.joined(label, capacity).put_to_work(self.agents() as usize).busy(),
    {
        self.lemma_joined_wf(label, capacity);
        let more = self.joined(label, capacity);
        let agent = self.agents() as usize;
        more.lemma_put_to_work_wf(agent);
        more.lemma_put_to_work_occupies(agent);
        let next = more.put_to_work(agent);
        if next.pending.len() > 0 {
            assert forall|a: int| 0 <= a < next.agents() implies #[trigger] next.occupied(a) by {
                if a < agent {
                    assert(self.occupied(a));
                    assert(more.occupied(a));
                }
            }
        }
    }
}

/// Whether `action` hands `task` to `agent`, with whatever input.
pub open spec fn hands(action: ActionModel, agent: usize, task: int) -> bool {
    action matches ActionModel::Send { agent: to, message: ToAgentModel::Assign { task_id, .. } }
        && to == agent && task_id == task
}

/// Whether the `k`-th action of `after`, if it is a message at all, hands out an open
/// task of `before` with its whole input, to a live agent that did not run it before
/// and runs it now.
pub open spec fn right_message(before: JobModel, after: JobModel, k: int) -> bool {
    after.out[k] matches ActionModel::Send { agent, message } ==> {
        &&& message matches ToAgentModel::Assign { task_id, payload } && {
            &&& task_id < before.payloads.len()
            &&& payload == before.payloads[task_id as int]
            &&& before.results[task_id as int] is None
            &&& !before.assigned[task_id as int].contains(agent)
            &&& after.assigned[task_id as int].contains(agent)
        }
        &&& agent < before.labels.len()
        &&& before.alive[agent as int]
    }
}

/// Whether some action from position `from` on hands task `i` to `agent` with the
/// input `payload`.
pub open spec fn handed_since(
    out: Seq<ActionModel>,
    from: int,
    agent: usize,
    i: int,
    payload: Seq<u8>,
) -> bool {
    exists|k: int|
        from <= k < out.len() && #[trigger] out[k] == (ActionModel::Send {
            agent,
            message: ToAgentModel::Assign { task_id: i as u64, payload },
        })
}

/// Whether `after` comes from `before` by handing out tasks alone: what is sent is
/// what is handed out, once each, with the whole input, in the order of waiting, to
/// live agents within their capacity; a second agent joins in on a task only when
/// racing is allowed and nothing waits.
pub open spec fn hands_out(before: JobModel, after: JobModel) -> bool {
    let from = before.out.len() as int;
    &&& same_facts(before, after)
    &&& before.assigned.len() == after.assigned.len()
    &&& from <= after.out.len()
    &&& after.out.take(from) == before.out
    &&& forall|k: int| from <= k < after.out.len() ==> #[trigger] right_message(before, after, k)
    &&& forall|k: int, l: int, agent: usize, task: int|
        from <= k < l < after.out.len() && #[trigger] hands(after.out[k], agent, task)
            ==> !(#[trigger] hands(after.out[l], agent, task))
    &&& forall|i: int, agent: usize|
        0 <= i < before.assigned.len() && (#[trigger] after.assigned[i].contains(agent))
            && !before.assigned[i].contains(agent) ==> handed_since(
            after.out,
            from,
            agent,
            i,
            before.payloads[i],
        )
    &&& forall|i: int|
        0 <= i < before.assigned.len() ==> {
            &&& before.assigned[i].len() <= (#[trigger] after.assigned[i]).len()
            &&& after.assigned[i].take(before.assigned[i].len() as int) == before.assigned[i]
            &&& after.assigned[i].len() == 2 && before.assigned[i].len() < 2 ==> before.speculative
                && after.pending.len() == 0
        }
    &&& forall|x: int|
        0 <= x < before.in_flight.len() ==> (#[trigger] after.in_flight[x]) == before.in_flight[x]
            || (before.alive[x] && before.in_flight[x] <= after.in_flight[x]
            <= before.capacity[x])
    &&& after.pending.len() <= before.pending.len()
    &&& after.pending == before.pending.skip(before.pending.len() - after.pending.len())
}

proof fn lemma_hands_out_none(m: JobModel)
    ensures
        hands_out(m, m),
{
    assert(m.out.take(m.out.len() as int) =~= m.out);
    assert(m.pending.skip(0) =~= m.pending);
    assert forall|i: int| 0 <= i < m.assigned.len() implies (#[trigger] m.assigned[i]).take(
        m.assigned[i].len() as int,
    ) == m.assigned[i] by {
        assert(m.assigned[i].take(m.assigned[i].len() as int) =~= m.assigned[i]);
    }
}

proof fn lemma_runners_kept(b: JobModel, c: JobModel, i: int, agent: usize)
    requires
        hands_out(b, c),
        0 <= i < b.assigned.len(),
        b.assigned[i].contains(agent),
    ensures
        c.assigned[i].contains(agent),
{
    let k = b.assigned[i].index_of(agent);
    assert(c.assigned[i].take(b.assigned[i].len() as int)[k] == agent);
    assert(c.assigned[i][k] == agent);
}

proof fn lemma_hands_out_twice(a: JobModel, b: JobModel, c: JobModel)
    requires
        hands_out(a, b),
        hands_out(b, c),
        a.results.len() == a.payloads.len(),
        a.assigned.len() == a.payloads.len(),
    ensures
        hands_out(a, c),
{
    let from = a.out.len() as int;
    let mid = b.out.len() as int;
    assert(c.out.take(from) =~= a.out) by {
        assert(c.out.take(from) =~= c.out.take(mid).take(from));
    }
    assert forall|k: int| from <= k < mid implies c.out[k] == b.out[k] by {
        assert(c.out.take(mid)[k] == c.out[k]);
    }
    assert forall|k: int| from <= k < c.out.len() implies #[trigger] right_message(a, c, k) by {
        if k < mid {
            assert(right_message(a, b, k));
            if let ActionModel::Send { agent, message: ToAgentModel::Assign { task_id, payload } } =
                b.out[k] {
                lemma_runners_kept(b, c, task_id as int, agent);
            }
        } else {
            assert(right_message(b, c, k));
            if let ActionModel::Send { agent, message: ToAgentModel::Assign { task_id, payload } } =
                c.out[k] {
                if a.assigned[task_id as int].contains(agent) {
                    lemma_runners_kept(a, b, task_id as int, agent);
                }
            }
        }
    }
    assert forall|k: int, l: int, agent: usize, task: int|
        from <= k < l < c.out.len() && #[trigger] hands(c.out[k], agent, task) implies !(
    #[trigger] hands(c.out[l], agent, task)) by {
        if l < mid {
            assert(hands(b.out[k], agent, task));
            assert(!hands(b.out[l], agent, task));
        } else if k < mid {
            assert(right_message(a, b, k));
            assert(right_message(b, c, l));
        }
    }
    assert forall|i: int, agent: usize|
        0 <= i < a.assigned.len() && (#[trigger] c.assigned[i].contains(agent))
            && !a.assigned[i].contains(agent) implies handed_since(
        c.out,
        from,
        agent,
        i,
        a.payloads[i],
    ) by {
        if b.assigned[i].contains(agent) {
            assert(handed_since(b.out, from, agent, i, a.payloads[i]));
            let k = choose|k: int|
                from <= k < b.out.len() && #[trigger] b.out[k] == (ActionModel::Send {
                    agent,
                    message: ToAgentModel::Assign { task_id: i as u64, payload: a.payloads[i] },
                });
            assert(c.out[k] == b.out[k]);
        } else {
            assert(handed_since(c.out, mid, agent, i, b.payloads[i]));
        }
    }
    assert forall|i: int| 0 <= i < a.assigned.len() implies {
        &&& a.assigned[i].len() <= (#[trigger] c.assigned[i]).len()
        &&& c.assigned[i].take(a.assigned[i].len() as int) == a.assigned[i]
        &&& c.assigned[i].len() == 2 && a.assigned[i].len() < 2 ==> a.speculative && c.pending.len()
            == 0
    } by {
        let x = a.assigned[i];
        let y = b.assigned[i];
        let z = c.assigned[i];
        assert(z.take(x.len() as int) =~= z.take(y.len() as int).take(x.len() as int));
    }
    assert forall|x: int| 0 <= x < a.in_flight.len() implies (#[trigger] c.in_flight[x])
        == a.in_flight[x] || (a.alive[x] && a.in_flight[x] <= c.in_flight[x] <= a.capacity[x]) by {
        assert(b.in_flight[x] == a.in_flight[x] || a.in_flight[x] <= b.in_flight[x]);
    }
    assert(c.pending =~= a.pending.skip(a.pending.len() - c.pending.len()));
}

impl JobModel {
    proof fn lemma_handed_hands_out(self, agent: usize, k: int)
        requires
            self.wf(),
            agent < self.agents(),
            0 <= k <= self.pending.len(),
            k <= self.free_slots(agent),
        ensures
            hands_out(self, self.handed(agent, k)),
    {
        self.lemma_handed_wf(agent, k);
        let next = self.handed(agent, k);
        let from = self.out.len() as int;
        assert(next.out.take(from) =~= self.out);
        let firsts = self.pending.take(k);
        assert forall|m: int| from <= m < next.out.len() implies #[trigger] right_message(
            self,
            next,
            m,
        ) by {
            let j = m - from;
            let task = self.pending[j];
            assert(firsts[j] == task);
            assert(firsts.contains(task));
            assert(next.assigned[task as int] == seq![agent]);
            assert(seq![agent][0] == agent);
        }
        assert forall|m: int, l: int, to: usize, task: int|
            from <= m < l < next.out.len() && #[trigger] hands(next.out[m], to, task) implies !(
        #[trigger] hands(next.out[l], to, task)) by {
            assert(self.pending[m - from] != self.pending[l - from]);
        }
        assert forall|i: int, to: usize|
            0 <= i < self.assigned.len() && (#[trigger] next.assigned[i].contains(to))
                && !self.assigned[i].contains(to) implies handed_since(
            next.out,
            from,
            to,
            i,
            self.payloads[i],
        ) by {
            assert(firsts.contains(i as usize));
            let j = firsts.index_of(i as usize);
            assert(next.out[from + j] == self.assign_of(agent, self.pending[j]));
        }
        assert forall|i: int| 0 <= i < self.assigned.len() implies {
            &&& self.assigned[i].len() <= (#[trigger] next.assigned[i]).len()
            &&& next.assigned[i].take(self.assigned[i].len() as int) == self.assigned[i]
            &&& next.assigned[i].len() == 2 && self.assigned[i].len() < 2 ==> self.speculative
                && next.pending.len() == 0
        } by {
            if firsts.contains(i as usize) {
                let j = firsts.index_of(i as usize);
                assert(self.pending[j] == i as usize);
                assert(self.assigned[i].len() == 0);
            }
            assert(next.assigned[i].take(self.assigned[i].len() as int) =~= self.assigned[i]);
        }
        assert(next.pending =~= self.pending.skip(self.pending.len() - next.pending.len()));
    }

    proof fn lemma_raced_hands_out(self, agent: usize, n: int)
        requires
            self.wf(),
            agent < self.agents(),
            0 <= n <= self.tasks(),
            self.stragglers_below(agent, n).len() <= self.free_slots(agent),
            self.stragglers_below(agent, n).len() > 0 ==> self.speculative && self.pending.len()
                == 0,
        ensures
            hands_out(self, self.raced(agent, self.stragglers_below(agent, n))),
    {
        let picks = self.stragglers_below(agent, n);
        let next = self.raced(agent, picks);
        let from = self.out.len() as int;
        self.lemma_stragglers_ascend(agent, n);
        assert(next.out.take(from) =~= self.out);
        assert forall|m: int| from <= m < next.out.len() implies #[trigger] right_message(
            self,
            next,
            m,
        ) by {
            let task = picks[m - from];
            assert(picks.contains(task));
            self.lemma_straggler_member(agent, n, task as int);
            assert(next.assigned[task as int] == self.assigned[task as int].push(agent));
            let runners = self.assigned[task as int];
            assert(runners.push(agent)[1] == agent);
            assert(self.results[task as int] is None);
            assert(!runners.contains(agent)) by {
                if runners.contains(agent) {
                    assert(runners[runners.index_of(agent)] == agent);
                }
            }
        }
        assert forall|m: int, l: int, to: usize, task: int|
            from <= m < l < next.out.len() && #[trigger] hands(next.out[m], to, task) implies !(
        #[trigger] hands(next.out[l], to, task)) by {
            assert(picks[m - from] < picks[l - from]);
        }
        assert forall|i: int, to: usize|
            0 <= i < self.assigned.len() && (#[trigger] next.assigned[i].contains(to))
                && !self.assigned[i].contains(to) implies handed_since(
            next.out,
            from,
            to,
            i,
            self.payloads[i],
        ) by {
            assert(picks.contains(i as usize));
            let j = picks.index_of(i as usize);
            let grown = self.assigned[i].push(agent);
            let at = grown.index_of(to);
            assert(grown[at] == to);
            if at < self.assigned[i].len() {
                assert(self.assigned[i][at] == to);
            }
            assert(next.out[from + j] == self.assign_of(agent, picks[j]));
        }
        assert forall|i: int| 0 <= i < self.assigned.len() implies {
            &&& self.assigned[i].len() <= (#[trigger] next.assigned[i]).len()
            &&& next.assigned[i].take(self.assigned[i].len() as int) == self.assigned[i]
            &&& next.assigned[i].len() == 2 && self.assigned[i].len() < 2 ==> self.speculative
                && next.pending.len() == 0
        } by {
            assert(next.assigned[i].take(self.assigned[i].len() as int) =~= self.assigned[i]);
        }
        assert(self.pending.skip(0) =~= self.pending);
    }

    proof fn lemma_stragglers_ascend(self, agent: usize, n: int)
        requires
            0 <= n <= self.assigned.len() <= usize::MAX,
        ensures
            forall|j: int|
                0 <= j < self.stragglers_below(agent, n).len() ==> (#[trigger] self.stragglers_below(
                    agent,
                    n,
                )[j]) < n,
            forall|i: int, j: int|
                0 <= i < j < self.stragglers_below(agent, n).len() ==> (
                #[trigger] self.stragglers_below(agent, n)[i]) < (#[trigger] self.stragglers_below(
                    agent,
                    n,
                )[j]),
        decreases n,
    {
        if n > 0 {
            self.lemma_stragglers_ascend(agent, n - 1);
            let s = self.stragglers_below(agent, n - 1);
            let t = self.stragglers_below(agent, n);
            assert forall|j: int| 0 <= j < t.len() implies (#[trigger] t[j]) < n by {
                if j < s.len() {
                    assert(t[j] == s[j]);
                }
            }
            assert forall|i: int, j: int| 0 <= i < j < t.len() implies (#[trigger] t[i]) < (
            #[trigger] t[j]) by {
                assert(t[i] == s[i]);
                if j < s.len() {
                    assert(t[j] == s[j]);
                }
            }
        }
    }

    /// Filling an agent only hands out tasks.
    proof fn lemma_filled_hands_out(self, agent: usize)
        requires
            self.wf(),
            agent < self.agents(),
        ensures
            hands_out(self, self.filled(agent)),
    {
        let free = self.free_slots(agent);
        let k = if free < self.pending.len() {
            free
        } else {
            self.pending.len() as int
        };
        self.lemma_handed_hands_out(agent, k);
        self.lemma_topped_up_wf(agent);
        let topped = self.topped_up(agent);
        if self.speculative {
            let n = topped.tasks() as int;
            let stragglers = topped.stragglers_below(agent, n);
            let left = topped.free_slots(agent);
            let picked = if left < stragglers.len() {
                left
            } else {
                stragglers.len() as int
            };
            let m = topped.lemma_picked_prefix(agent, picked, n);
            topped.lemma_raced_hands_out(agent, m);
            lemma_hands_out_twice(self, topped, topped.speculated(agent));
        }
    }

    proof fn lemma_filled_below_hands_out(self, n: int)
        requires
            self.wf(),
            0 <= n <= self.agents(),
        ensures
            hands_out(self, self.filled_below(n)),
        decreases n,
    {
        if n == 0 {
            lemma_hands_out_none(self);
        } else {
            self.lemma_filled_below_hands_out(n - 1);
            self.lemma_filled_below_wf(n - 1);
            let before = self.filled_below(n - 1);
            before.lemma_filled_hands_out((n - 1) as usize);
            lemma_hands_out_twice(self, before, self.filled_below(n));
        }
    }

    /// A report says nothing to an agent.
    proof fn lemma_emit_hands_out(self, event: EventModel)
        requires
            self.wf(),
        ensures
            hands_out(self, self.doing(ActionModel::Emit { event })),
    {
        let next = self.doing(ActionModel::Emit { event });
        assert(next.out.take(self.out.len() as int) =~= self.out);
        assert(self.pending.skip(0) =~= self.pending);
        assert forall|i: int| 0 <= i < self.assigned.len() implies (#[trigger] next.assigned[i]).take(
            self.assigned[i].len() as int,
        ) == self.assigned[i] by {
            assert(self.assigned[i].take(self.assigned[i].len() as int) =~= self.assigned[i]);
        }
    }

    proof fn lemma_put_to_work_hands_out(self, agent: usize)
        requires
            self.wf(),
            agent < self.agents(),
        ensures
            hands_out(self, self.put_to_work(agent)),
    {
        self.lemma_filled_hands_out(agent);
        self.lemma_filled_wf(agent);
        let next = self.filled(agent);
        let event = EventModel::Node { host: next.labels[agent as int], state: NodeState::Working };
        next.lemma_emit_hands_out(event);
        lemma_hands_out_twice(self, next, next.doing(ActionModel::Emit { event }));
    }

    proof fn lemma_put_to_work_below_hands_out(self, n: int)
        requires
            self.wf(),
            0 <= n <= self.agents(),
        ensures
            hands_out(self, self.put_to_work_below(n)),
            self.put_to_work_below(n).wf(),
        decreases n,
    {
        if n == 0 {
            lemma_hands_out_none(self);
        } else {
            self.lemma_put_to_work_below_hands_out(n - 1);
            let before = self.put_to_work_below(n - 1);
            before.lemma_put_to_work_hands_out((n - 1) as usize);
            before.lemma_put_to_work_wf((n - 1) as usize);
            lemma_hands_out_twice(self, before, self.put_to_work_below(n));
        }
    }

    proof fn lemma_refilled_hands_out(self, freed: Seq<usize>)
        requires
            self.wf(),
            forall|k: int| 0 <= k < freed.len() ==> (#[trigger] freed[k]) < self.agents(),
        ensures
            hands_out(self, self.refilled(freed)),
        decreases freed.len(),
    {
        if freed.len() == 0 {
            lemma_hands_out_none(self);
        } else {
            let agent = freed.last();
            let rest = freed.drop_last();
            assert forall|k: int| 0 <= k < rest.len() implies (#[trigger] rest[k])
                < self.agents() by {
                assert(rest[k] == freed[k]);
            }
            self.lemma_refilled_hands_out(rest);
            self.lemma_refilled_wf(rest);
            let before = self.refilled(rest);
            assert(freed[freed.len() - 1] < self.agents());
            before.lemma_filled_hands_out(agent);
            before.lemma_filled_wf(agent);
            let next = before.filled(agent);
            lemma_hands_out_twice(self, before, next);
            let event = EventModel::Node { host: next.labels[agent as int], state: NodeState::Idle };
            next.lemma_emit_hands_out(event);
            lemma_hands_out_twice(self, next, next.doing(ActionModel::Emit { event }));
        }
    }
}

/// Whether the `k`-th action of `after`, if it hands out a task, hands out an open
/// one with its whole input, to a live agent that did not run it in `before`, runs it
/// now, and, unless racing is allowed and nothing waits, runs it alone.
pub open spec fn right_assignment(before: JobModel, after: JobModel, k: int) -> bool {
    after.out[k] matches ActionModel::Send {
        agent,
        message: ToAgentModel::Assign { task_id, payload },
    } ==> {
        &&& task_id < before.payloads.len()
        &&& payload == before.payloads[task_id as int]
        &&& after.results[task_id as int] is None
        &&& agent < after.labels.len()
        &&& after.alive[agent as int]
        &&& !before.assigned[task_id as int].contains(agent)
        &&& after.assigned[task_id as int].contains(agent)
        &&& after.assigned[task_id as int].len() == 1 || (before.speculative && after.pending.len()
            == 0)
    }
}

/// Whether what `after` sends that `before` did not is what it has handed out since,
/// and nothing but that and the promotions of standbys.
pub open spec fn supplied(before: JobModel, after: JobModel) -> bool {
    let from = before.out.len() as int;
    &&& from <= after.out.len()
    &&& after.out.take(from) == before.out
    &&& forall|k: int|
        from <= k < after.out.len() ==> #[trigger] right_assignment(before, after, k)
    &&& forall|k: int|
        from <= k < after.out.len() ==> ((#[trigger] after.out[k]) matches ActionModel::Send {
            message,
            ..
        } ==> message is Assign || message is Promote)
    &&& forall|k: int, l: int, agent: usize, task: int|
        from <= k < l < after.out.len() && #[trigger] hands(after.out[k], agent, task)
            ==> !(#[trigger] hands(after.out[l], agent, task))
    &&& forall|i: int, agent: usize|
        0 <= i < before.payloads.len() && (#[trigger] after.assigned[i].contains(agent))
            && !before.assigned[i].contains(agent) ==> handed_since(
            after.out,
            from,
            agent,
            i,
            before.payloads[i],
        )
    &&& forall|x: int|
        0 <= x < before.labels.len() ==> (#[trigger] after.in_flight[x]) <= before.in_flight[x]
            || after.in_flight[x] <= after.capacity[x]
}

/// Handing out after some bookkeeping that takes runners away only from tasks that
/// are resolved or whose agent is lost.
proof fn lemma_supplied(before: JobModel, mid: JobModel, after: JobModel)
    requires
        before.wf(),
        mid.wf(),
        after.wf(),
        hands_out(mid, after),
        mid.labels == before.labels,
        mid.payloads == before.payloads,
        mid.speculative == before.speculative,
        before.out.len() <= mid.out.len(),
        mid.out.take(before.out.len() as int) == before.out,
        forall|k: int|
            before.out.len() <= k < mid.out.len() ==> ((#[trigger] mid.out[k]) matches
                ActionModel::Send { message, .. } ==> message is Promote),
        forall|i: int, agent: usize|
            0 <= i < before.tasks() && #[trigger] mid.assigned[i].contains(agent)
                ==> before.assigned[i].contains(agent),
        forall|i: int, agent: usize|
            0 <= i < before.tasks() && #[trigger] before.assigned[i].contains(agent)
                && !mid.assigned[i].contains(agent) ==> mid.results[i] is Some
                || !mid.alive[agent as int],
        forall|x: int|
            0 <= x < before.agents() ==> (#[trigger] mid.in_flight[x]) <= before.in_flight[x],
    ensures
        supplied(before, after),
{
    let from = before.out.len() as int;
    let m = mid.out.len() as int;
    assert(after.out.take(from) =~= after.out.take(m).take(from));
    assert forall|k: int| from <= k < m implies after.out[k] == mid.out[k] by {
        assert(after.out.take(m)[k] == after.out[k]);
    }
    assert forall|k: int| from <= k < after.out.len() implies #[trigger] right_assignment(
        before,
        after,
        k,
    ) by {
        if k >= m {
            assert(right_message(mid, after, k));
            if let ActionModel::Send { agent, message: ToAgentModel::Assign { task_id, payload } } =
                after.out[k] {
                let i = task_id as int;
                assert(before.assigned[i].contains(agent) ==> !mid.assigned[i].contains(agent));
                assert(after.assigned[i].len() <= 2);
                let at = after.assigned[i].index_of(agent);
                assert(after.assigned[i][at] == agent);
                assert(mid.assigned[i].len() < 2) by {
                    if mid.assigned[i].len() == 2 {
                        assert(after.assigned[i].take(2) =~= after.assigned[i]);
                    }
                }
            }
        }
    }
    assert forall|k: int| from <= k < after.out.len() implies ((#[trigger] after.out[k]) matches
        ActionModel::Send { message, .. } ==> message is Assign || message is Promote) by {
        if k >= m {
            assert(right_message(mid, after, k));
        }
    }
    assert forall|k: int, l: int, agent: usize, task: int|
        from <= k < l < after.out.len() && #[trigger] hands(after.out[k], agent, task) implies !(
    #[trigger] hands(after.out[l], agent, task)) by {
        if k < m {
            assert(after.out[k] == mid.out[k]);
        }
    }
    assert forall|i: int, agent: usize|
        0 <= i < before.payloads.len() && (#[trigger] after.assigned[i].contains(agent))
            && !before.assigned[i].contains(agent) implies handed_since(
        after.out,
        from,
        agent,
        i,
        before.payloads[i],
    ) by {
        assert(!mid.assigned[i].contains(agent));
        assert(handed_since(after.out, m, agent, i, mid.payloads[i]));
        let k = choose|k: int|
            m <= k < after.out.len() && #[trigger] after.out[k] == (ActionModel::Send {
                agent,
                message: ToAgentModel::Assign { task_id: i as u64, payload: mid.payloads[i] },
            });
        assert(from <= k);
    }
    assert forall|x: int| 0 <= x < before.labels.len() implies (#[trigger] after.in_flight[x])
        <= before.in_flight[x] || after.in_flight[x] <= after.capacity[x] by {
        assert(mid.in_flight[x] <= before.in_flight[x]);
    }
}

impl JobModel {
    /// Every agent gets what it is to run, and nothing else. Whatever happens, each
    /// message sent on it either promotes a standby or hands out an open task with
    /// exactly the bytes of its input, to a live agent that did not have it; every task
    /// handed out is sent, once; and no agent is filled beyond its capacity.
    pub proof fn law_agents_get_whole_inputs(self, event: AgentEvent)
        requires
            self.wf(),
            about(event) < self.agents(),
        ensures
            self.after(event) matches Ok(next) ==> supplied(self, next),
    {
        self.law_events_keep_the_invariant(event);
        match event {
            AgentEvent::Lost(agent) => {
                let told = self.reporting(agent, NodeState::Lost);
                self.lemma_doing_wf(
                    ActionModel::Emit {
                        event: EventModel::Node {
                            host: self.labels[agent as int],
                            state: NodeState::Lost,
                        },
                    },
                );
                told.lemma_requeue_wf(agent);
                let requeued = told.requeued(agent);
                let n = requeued.agents() as int;
                requeued.lemma_rerouted_wf(n);
                let mid = requeued.rerouted();
                mid.lemma_filled_below_hands_out(n);
                requeued.lemma_promotions(n);
                assert(mid.out.take(self.out.len() as int) =~= self.out);
                assert forall|k: int| self.out.len() <= k < mid.out.len() implies ((
                #[trigger] mid.out[k]) matches ActionModel::Send { message, .. }
                    ==> message is Promote) by {
                    if k > self.out.len() {
                        assert(mid.out[k] == requeued.promotions_below(n)[k - self.out.len() - 1]);
                    }
                }
                assert forall|i: int, a: usize|
                    0 <= i < self.tasks() && #[trigger] mid.assigned[i].contains(
                        a,
                    ) implies self.assigned[i].contains(a) by {
                    lemma_without(self.assigned[i], agent);
                }
                assert forall|i: int, a: usize|
                    0 <= i < self.tasks() && #[trigger] self.assigned[i].contains(a)
                        && !mid.assigned[i].contains(a) implies mid.results[i] is Some
                    || !mid.alive[a as int] by {
                    lemma_without(self.assigned[i], agent);
                }
                lemma_supplied(self, mid, mid.filled_below(n));
            },
            AgentEvent::Message(agent, message) => match message {
                FromAgent::Capacity { slots } => {
                    self.lemma_capacity_wf(agent, slots);
                    let mid = JobModel {
                        capacity: self.capacity.update(agent as int, slots),
                        ..self
                    };
                    mid.lemma_put_to_work_hands_out(agent);
                    assert(mid.out.take(self.out.len() as int) =~= self.out);
                    lemma_supplied(self, mid, mid.put_to_work(agent));
                },
                FromAgent::Completed { task_id, output, via } => {
                    self.lemma_finished_supplied(task_id, Ok(output), true, agent, via@);
                },
                FromAgent::Failed { task_id, error, via } => {
                    self.lemma_finished_supplied(task_id, Err(error), false, agent, via@);
                },
                _ => {
                    lemma_hands_out_none(self);
                    assert(self.out.take(self.out.len() as int) =~= self.out);
                    if self.after(event) is Ok {
                        let next = self.after(event)->Ok_0;
                        assert(next.out.take(self.out.len() as int) =~= self.out);
                    }
                },
            },
        }
    }

    proof fn lemma_promotions(self, n: int)
        requires
            self.shaped(),
            0 <= n <= self.agents(),
        ensures
            forall|k: int|
                0 <= k < self.promotions_below(n).len() ==> ((#[trigger] self.promotions_below(
                    n,
                )[k]) matches ActionModel::Send { message, .. } && message is Promote),
        decreases n,
    {
        if n > 0 {
            self.lemma_promotions(n - 1);
            let before = self.promotions_below(n - 1);
            let now = self.promotions_below(n);
            assert forall|k: int| 0 <= k < now.len() implies ((#[trigger] now[k]) matches
                ActionModel::Send { message, .. } && message is Promote) by {
                if k < before.len() {
                    assert(now[k] == before[k]);
                }
            }
        }
    }

    proof fn lemma_finished_supplied(
        self,
        task: TaskId,
        result: Outcome,
        ok: bool,
        completer: usize,
        via: Seq<char>,
    )
        requires
            self.wf(),
            completer < self.agents(),
        ensures
            supplied(self, self.finished(task, result, ok, completer, via)),
    {
        self.lemma_finished_wf(task, result, ok, completer, via);
        let next = self.finished(task, result, ok, completer, via);
        if self.running(task as int) {
            let t = task as int;
            self.lemma_record_wf(t, result);
            let recorded = self.recorded(t, result);
            let event = EventModel::TaskFinished {
                host: joined_label(self.labels[completer as int], via),
                task,
                ok,
            };
            recorded.lemma_doing_wf(ActionModel::Emit { event });
            let mid = recorded.doing(ActionModel::Emit { event });
            assert forall|k: int| 0 <= k < self.assigned[t].len() implies (
            #[trigger] self.assigned[t][k]) < self.agents() by {}
            mid.lemma_refilled_hands_out(self.assigned[t]);
            assert(mid.out.take(self.out.len() as int) =~= self.out);
            lemma_supplied(self, mid, next);
        } else {
            lemma_hands_out_none(self);
            assert(self.out.take(self.out.len() as int) =~= self.out);
        }
    }

    /// A node that joins gets what it is to run, whole, and no other agent is sent
    /// anything.
    pub proof fn law_a_joiner_gets_whole_inputs(self, label: Seq<char>, capacity: usize)
        requires
            self.wf(),
            self.agents() < usize::MAX,
        ensures
            ({
                let next = self.joined(label, capacity).put_to_work(self.agents() as usize);
                &&& next.labels == self.labels.push(label)
                &&& next.capacity == self.capacity.push(capacity)
                &&& next.alive == self.alive.push(true)
                &&& next.out.len() >= self.out.len()
                &&& next.out.take(self.out.len() as int) == self.out
                &&& next.in_flight[self.agents() as int] <= capacity
                &&& forall|k: int|
                    self.out.len() <= k < next.out.len() ==> ((#[trigger] next.out[k]) matches
                        ActionModel::Send { agent, message } ==> agent == self.agents() && (
                    message matches ToAgentModel::Assign { task_id, payload } && task_id
                        < self.payloads.len() && payload == self.payloads[task_id as int]
                        && self.results[task_id as int] is None
                        && next.assigned[task_id as int].contains(agent)))
                &&& forall|i: int, agent: usize|
                    0 <= i < self.payloads.len() && (#[trigger] next.assigned[i].contains(agent))
                        && !self.assigned[i].contains(agent) ==> handed_since(
                        next.out,
                        self.out.len() as int,
                        agent,
                        i,
                        self.payloads[i],
                    )
            }),
    {
        self.lemma_joined_wf(label, capacity);
        let more = self.joined(label, capacity);
        let newcomer = self.agents() as usize;
        more.lemma_put_to_work_hands_out(newcomer);
        more.lemma_put_to_work_wf(newcomer);
        let next = more.put_to_work(newcomer);
        more.lemma_only_to(newcomer);
        assert forall|k: int| self.out.len() <= k < next.out.len() implies ((
        #[trigger] next.out[k]) matches ActionModel::Send { agent, message } ==> agent
            == self.agents() && (message matches ToAgentModel::Assign { task_id, payload }
            && task_id < self.payloads.len() && payload == self.payloads[task_id as int]
            && self.results[task_id as int] is None && next.assigned[task_id as int].contains(
            agent,
        ))) by {
            assert(right_message(more, next, k));
        }
        assert(next.in_flight[newcomer as int] == more.in_flight[newcomer as int]
            || next.in_flight[newcomer as int] <= more.capacity[newcomer as int]);
    }

    /// Putting an agent to work sends to nobody else.
    proof fn lemma_only_to(self, agent: usize)
        requires
            self.wf(),
            agent < self.agents(),
        ensures
            forall|k: int|
                self.out.len() <= k < self.put_to_work(agent).out.len() ==> ((
                #[trigger] self.put_to_work(agent).out[k]) matches ActionModel::Send {
                    agent: to,
                    ..
                } ==> to == agent),
    {
        let topped = self.topped_up(agent);
        let filled = self.filled(agent);
        let next = self.put_to_work(agent);
        assert forall|k: int| self.out.len() <= k < next.out.len() implies ((#[trigger] next.out[k])
            matches ActionModel::Send { agent: to, .. } ==> to == agent) by {
            if k < topped.out.len() {
                assert(next.out[k] == topped.out[k]);
                assert(topped.out[k] == self.assign_of(agent, self.pending[k - self.out.len()]));
            } else if k < filled.out.len() {
                assert(next.out[k] == filled.out[k]);
            }
        }
    }
}

/// Whether `after` still begins with what `before` asked for.
pub open spec fn continues(before: Seq<ActionModel>, after: Seq<ActionModel>) -> bool {
    before.len() <= after.len() && after.take(before.len() as int) == before
}

/// Whether `event` is reported at or after position `from`.
pub open spec fn reported_since(out: Seq<ActionModel>, from: int, event: EventModel) -> bool {
    exists|k: int|
        from <= k < out.len() && #[trigger] out[k] == (ActionModel::Emit { event })
}

/// Whether a child is promoted on `agent` at or after position `from`.
pub open spec fn promoted_since(
    out: Seq<ActionModel>,
    from: int,
    agent: usize,
    child: Seq<char>,
) -> bool {
    exists|k: int|
        from <= k < out.len() && #[trigger] out[k] == (ActionModel::Send {
            agent,
            message: ToAgentModel::Promote { child },
        })
}

/// The path of the leaf that ran a task: the agent itself, or what it named below it.
pub open spec fn leaf_path(label: Seq<char>, via: Seq<char>) -> Seq<char> {
    if via.len() == 0 {
        label
    } else {
        label + "/"@ + via
    }
}

impl JobModel {
    /// What refilling the freed agents reports: those left without a task are idle.
    proof fn lemma_refilled_reports(self, freed: Seq<usize>)
        requires
            self.wf(),
            freed.no_duplicates(),
            forall|k: int| 0 <= k < freed.len() ==> (#[trigger] freed[k]) < self.agents(),
        ensures
            ({
                let next = self.refilled(freed);
                let from = self.out.len() as int;
                &&& continues(self.out, next.out)
                &&& forall|k: int|
                    0 <= k < freed.len() && next.in_flight[(#[trigger] freed[k]) as int] == 0
                        ==> reported_since(
                        next.out,
                        from,
                        EventModel::Node {
                            host: self.labels[freed[k] as int],
                            state: NodeState::Idle,
                        },
                    )
                &&& forall|k: int|
                    from <= k < next.out.len() ==> ((#[trigger] next.out[k]) matches
                        ActionModel::Emit { event } ==> event matches EventModel::Node {
                        host,
                        state,
                    } && state == NodeState::Idle && exists|j: int|
                        0 <= j < freed.len() && host == self.labels[(#[trigger] freed[j]) as int]
                            && next.in_flight[freed[j] as int] == 0)
                &&& forall|x: int|
                    0 <= x < self.agents() && !freed.contains(x as usize) ==> (
                    #[trigger] next.in_flight[x]) == self.in_flight[x]
            }),
        decreases freed.len(),
    {
        let from = self.out.len() as int;
        if freed.len() == 0 {
            assert(self.out.take(from) =~= self.out);
        } else {
            let agent = freed.last();
            let rest = freed.drop_last();
            assert(freed[freed.len() - 1] == agent);
            assert forall|k: int| 0 <= k < rest.len() implies (#[trigger] rest[k]) < self.agents()
                && rest[k] != agent by {
                assert(rest[k] == freed[k]);
            }
            assert(rest.no_duplicates());
            self.lemma_refilled_reports(rest);
            self.lemma_refilled_wf(rest);
            let before = self.refilled(rest);
            before.lemma_filled_hands_out(agent);
            before.law_filling_is_work_conserving(agent);
            let filled = before.filled(agent);
            let next = self.refilled(freed);
            assert(next.in_flight == filled.in_flight);
            let m = before.out.len() as int;
            assert forall|k: int| from <= k < m implies next.out[k] == before.out[k] by {
                assert(filled.out.take(m)[k] == filled.out[k]);
            }
            assert(next.out.take(from) =~= self.out) by {
                assert(before.out.take(from) =~= self.out);
                assert forall|k: int| 0 <= k < from implies next.out[k] == self.out[k] by {
                    assert(filled.out.take(m)[k] == filled.out[k]);
                    assert(before.out.take(from)[k] == before.out[k]);
                }
            }
            assert forall|k: int|
                0 <= k < freed.len() && next.in_flight[(#[trigger] freed[k]) as int]
                    == 0 implies reported_since(
                next.out,
                from,
                EventModel::Node {
                    host: self.labels[freed[k] as int],
                    state: NodeState::Idle,
                },
            ) by {
                let event = EventModel::Node {
                    host: self.labels[freed[k] as int],
                    state: NodeState::Idle,
                };
                if k == freed.len() - 1 {
                    assert(next.out[filled.out.len() as int] == (ActionModel::Emit { event }));
                } else {
                    assert(rest[k] == freed[k]);
                    assert(before.in_flight[rest[k] as int] == 0);
                    assert(reported_since(before.out, from, event));
                    let j = choose|j: int|
                        from <= j < before.out.len() && #[trigger] before.out[j] == (
                        ActionModel::Emit { event });
                    assert(next.out[j] == before.out[j]);
                }
            }
            assert forall|k: int| from <= k < next.out.len() implies ((#[trigger] next.out[k])
                matches ActionModel::Emit { event } ==> event matches EventModel::Node {
                host,
                state,
            } && state == NodeState::Idle && exists|j: int|
                0 <= j < freed.len() && host == self.labels[(#[trigger] freed[j]) as int]
                    && next.in_flight[freed[j] as int] == 0) by {
                if k < m {
                    if let ActionModel::Emit { event } = before.out[k] {
                        let host = event->Node_host;
                        let j = choose|j: int|
                            0 <= j < rest.len() && host == self.labels[(#[trigger] rest[j]) as int]
                                && before.in_flight[rest[j] as int] == 0;
                        assert(freed[j] == rest[j]);
                        assert(next.in_flight[freed[j] as int] == before.in_flight[rest[j] as int]);
                    }
                } else if k < filled.out.len() {
                    assert(filled.out[k] == next.out[k]);
                    before.lemma_fill_only_sends(agent, k);
                } else {
                    assert(freed[freed.len() - 1] == agent);
                }
            }
            assert forall|x: int| 0 <= x < self.agents() && !freed.contains(x as usize) implies (
            #[trigger] next.in_flight[x]) == self.in_flight[x] by {
                assert(freed[freed.len() - 1] == agent);
                assert(x != agent);
                if rest.contains(x as usize) {
                    let j = rest.index_of(x as usize);
                    assert(freed[j] == x as usize);
                }
                assert(before.in_flight[x] == self.in_flight[x]);
            }
        }
    }

    proof fn lemma_fill_only_sends(self, agent: usize, k: int)
        requires
            self.wf(),
            agent < self.agents(),
            self.out.len() <= k < self.filled(agent).out.len(),
        ensures
            self.filled(agent).out[k] is Send,
    {
        let topped = self.topped_up(agent);
        if k < topped.out.len() {
            assert(self.filled(agent).out[k] == topped.out[k]);
        }
    }

    /// A completed task keeps the very output the agent reported, is reported once as
    /// a success of the leaf that ran it, and leaves the agents it freed and that got
    /// nothing new reported idle. An outcome of a task that is not running changes
    /// nothing.
    pub proof fn law_a_completion_is_kept_and_told(
        self,
        agent: usize,
        task_id: TaskId,
        output: Vec<u8>,
        via: String,
    )
        requires
            self.wf(),
            agent < self.agents(),
        ensures
            self.after(
                AgentEvent::Message(agent, FromAgent::Completed { task_id, output, via }),
            ) matches Ok(next) && if task_id < self.payloads.len()
                && self.assigned[task_id as int].len() > 0 {
                &&& next.results == self.results.update(task_id as int, Some(Ok(output)))
                &&& next.remaining + 1 == self.remaining
                &&& next.assigned[task_id as int].len() == 0
                &&& self.told_of(next, task_id, true, leaf_path(self.labels[agent as int], via@))
            } else {
                next == self
            },
    {
        self.lemma_finished_told(task_id, Ok(output), true, agent, via@);
    }

    /// A failed task keeps the very error the agent reported, and is told like a
    /// completed one, as a failure.
    pub proof fn law_a_failure_is_kept_and_told(
        self,
        agent: usize,
        task_id: TaskId,
        error: String,
        via: String,
    )
        requires
            self.wf(),
            agent < self.agents(),
        ensures
            self.after(
                AgentEvent::Message(agent, FromAgent::Failed { task_id, error, via }),
            ) matches Ok(next) && if task_id < self.payloads.len()
                && self.assigned[task_id as int].len() > 0 {
                &&& next.results == self.results.update(task_id as int, Some(Err(error)))
                &&& next.remaining + 1 == self.remaining
                &&& next.assigned[task_id as int].len() == 0
                &&& self.told_of(next, task_id, false, leaf_path(self.labels[agent as int], via@))
            } else {
                next == self
            },
    {
        self.lemma_finished_told(task_id, Err(error), false, agent, via@);
    }

    /// What `next` reports once running task `task` is over on `host`: first that it
    /// is, then those of its agents that are idle.
    pub open spec fn told_of(
        self,
        next: JobModel,
        task: TaskId,
        ok: bool,
        host: Seq<char>,
    ) -> bool {
        let from = self.out.len() as int;
        let freed = self.assigned[task as int];
        &&& next.labels == self.labels
        &&& next.alive == self.alive
        &&& next.capacity == self.capacity
        &&& next.standbys == self.standbys
        &&& next.pending.len() <= self.pending.len()
        &&& next.pending == self.pending.skip(self.pending.len() - next.pending.len())
        &&& continues(self.out, next.out)
        &&& from < next.out.len()
        &&& next.out[from] == (ActionModel::Emit {
            event: EventModel::TaskFinished { host, task, ok },
        })
        &&& forall|k: int|
            0 <= k < freed.len() && next.in_flight[(#[trigger] freed[k]) as int] == 0
                ==> reported_since(
                next.out,
                from + 1,
                EventModel::Node { host: self.labels[freed[k] as int], state: NodeState::Idle },
            )
        &&& forall|k: int|
            from < k < next.out.len() ==> ((#[trigger] next.out[k]) matches ActionModel::Emit {
                event,
            } ==> event matches EventModel::Node { host: idle, state } && state == NodeState::Idle
                && exists|j: int|
                0 <= j < freed.len() && idle == self.labels[(#[trigger] freed[j]) as int]
                    && next.in_flight[freed[j] as int] == 0)
    }

    proof fn lemma_finished_told(
        self,
        task: TaskId,
        result: Outcome,
        ok: bool,
        completer: usize,
        via: Seq<char>,
    )
        requires
            self.wf(),
            completer < self.agents(),
        ensures
            ({
                let next = self.finished(task, result, ok, completer, via);
                if task < self.payloads.len() && self.assigned[task as int].len() > 0 {
                    &&& next.results == self.results.update(task as int, Some(result))
                    &&& next.remaining + 1 == self.remaining
                    &&& next.assigned[task as int].len() == 0
                    &&& self.told_of(next, task, ok, leaf_path(self.labels[completer as int], via))
                } else {
                    next == self
                }
            }),
    {
        self.lemma_finished_wf(task, result, ok, completer, via);
        let next = self.finished(task, result, ok, completer, via);
        if self.running(task as int) {
            let t = task as int;
            self.lemma_record_wf(t, result);
            let recorded = self.recorded(t, result);
            let event = EventModel::TaskFinished {
                host: joined_label(self.labels[completer as int], via),
                task,
                ok,
            };
            recorded.lemma_doing_wf(ActionModel::Emit { event });
            let mid = recorded.doing(ActionModel::Emit { event });
            let freed = self.assigned[t];
            assert forall|k: int| 0 <= k < freed.len() implies (#[trigger] freed[k])
                < self.agents() by {
                assert(self.assigned[t][k] < self.agents());
            }
            mid.lemma_refilled_reports(freed);
            mid.lemma_refilled_hands_out(freed);
            let from = self.out.len() as int;
            assert(next.out.take(from) =~= self.out) by {
                assert(mid.out.take(from) =~= self.out);
                assert forall|k: int| 0 <= k < from implies next.out[k] == self.out[k] by {
                    assert(next.out.take(from + 1)[k] == mid.out[k]);
                }
            }
            assert(next.out[from] == mid.out[from]) by {
                assert(next.out.take(from + 1)[from] == next.out[from]);
            }
            assert(next.results[t] is Some);
        }
    }

    /// Where no task is running on it, a started task is not told of; else it is told
    /// of once, as running on the agent. Nothing else changes.
    pub proof fn law_a_start_is_told(self, agent: usize, task_id: TaskId)
        requires
            self.wf(),
            agent < self.agents(),
        ensures
            self.after(AgentEvent::Message(agent, FromAgent::Started { task_id })) matches Ok(next)
                && next == (JobModel {
                out: if task_id < self.payloads.len() && self.assigned[task_id as int].len() > 0 {
                    self.out.push(
                        ActionModel::Emit {
                            event: EventModel::TaskStarted {
                                host: self.labels[agent as int],
                                task: task_id,
                            },
                        },
                    )
                } else {
                    self.out
                },
                ..self
            }),
    {
    }

    /// What an agent observed is passed on under its name and changes nothing else; a
    /// sign of life changes nothing; a handshake message abandons the run.
    pub proof fn law_other_messages(self, agent: usize, event: Event, slots: usize, children: Vec<ChildAd>)
        requires
            self.wf(),
            agent < self.agents(),
        ensures
            self.after(AgentEvent::Message(agent, FromAgent::Observe(event))) == Ok::<
                JobModel,
                JobError,
            >(
                JobModel {
                    out: self.out.push(
                        ActionModel::Emit { event: event@.prefixed(self.labels[agent as int]) },
                    ),
                    ..self
                },
            ),
            self.after(AgentEvent::Message(agent, FromAgent::Pong)) == Ok::<JobModel, JobError>(
                self,
            ),
            self.after(AgentEvent::Message(agent, FromAgent::Ready { slots })) == Err::<
                JobModel,
                JobError,
            >(JobError::RepeatedHandshake),
            self.after(AgentEvent::Message(agent, FromAgent::Discovered { children })) == Err::<
                JobModel,
                JobError,
            >(JobError::RepeatedHandshake),
    {
    }

    /// A new capacity holds for the agent that reported it and no other, and an agent
    /// that has a task afterwards is reported working.
    pub proof fn law_a_capacity_is_taken_over(self, agent: usize, slots: usize)
        requires
            self.wf(),
            agent < self.agents(),
        ensures
            self.after(AgentEvent::Message(agent, FromAgent::Capacity { slots })) matches Ok(next)
                && {
                &&& next.capacity == self.capacity.update(agent as int, slots)
                &&& next.alive == self.alive
                &&& next.results == self.results
                &&& next.standbys == self.standbys
                &&& next.in_flight[agent as int] > 0 ==> reported_since(
                    next.out,
                    self.out.len() as int,
                    EventModel::Node {
                        host: self.labels[agent as int],
                        state: NodeState::Working,
                    },
                )
                &&& self.alive[agent as int] ==> next.in_flight[agent as int] >= slots
                    || next.pending.len() == 0
            },
    {
        self.lemma_capacity_wf(agent, slots);
        let mid = JobModel { capacity: self.capacity.update(agent as int, slots), ..self };
        mid.lemma_filled_wf(agent);
        mid.law_filling_is_work_conserving(agent);
        mid.lemma_filled_hands_out(agent);
        let filled = mid.filled(agent);
        let next = mid.put_to_work(agent);
        if next.in_flight[agent as int] > 0 {
            assert(next.out[filled.out.len() as int] == (ActionModel::Emit {
                event: EventModel::Node {
                    host: self.labels[agent as int],
                    state: NodeState::Working,
                },
            }));
        }
    }

    /// With racing allowed, an agent with a slot to spare leaves no task to a single
    /// other agent, and what it joins in on is older than what it leaves.
    pub proof fn law_a_spare_slot_races_the_oldest(self, agent: usize)
        requires
            self.wf(),
            agent < self.agents(),
            self.speculative,
            self.alive[agent as int],
        ensures
            ({
                let next = self.filled(agent);
                &&& next.in_flight[agent as int] < self.capacity[agent as int] ==> next.pending.len()
                    == 0 && forall|i: int|
                    0 <= i < next.assigned.len() && (#[trigger] next.assigned[i]).len() == 1
                        ==> next.assigned[i][0] == agent
                &&& forall|i: int, j: int|
                    0 <= j < i < next.assigned.len() && self.assigned[i].len() == 1 && (
                    #[trigger] next.assigned[i]).len() == 2 && (#[trigger] next.assigned[j]).len()
                        == 1 ==> next.assigned[j][0] == agent
            }),
    {
        self.lemma_topped_up_wf(agent);
        let topped = self.topped_up(agent);
        let next = self.filled(agent);
        let n = topped.tasks() as int;
        let all = topped.stragglers_below(agent, n);
        let free = topped.free_slots(agent);
        let k = if free < all.len() {
            free
        } else {
            all.len() as int
        };
        let picks = all.take(k);
        topped.lemma_stragglers_ascend(agent, n);
        let m = topped.lemma_picked_prefix(agent, k, n);
        assert(next.in_flight[agent as int] == topped.in_flight[agent as int] + picks.len());
        if next.in_flight[agent as int] < self.capacity[agent as int] {
            assert(k == all.len());
            assert(picks =~= all);
            assert forall|i: int|
                0 <= i < next.assigned.len() && (#[trigger] next.assigned[i]).len()
                    == 1 implies next.assigned[i][0] == agent by {
                topped.lemma_straggler_member(agent, n, i);
            }
        }
        assert forall|i: int, j: int|
            0 <= j < i < next.assigned.len() && self.assigned[i].len() == 1 && (
            #[trigger] next.assigned[i]).len() == 2 && (#[trigger] next.assigned[j]).len()
                == 1 implies next.assigned[j][0] == agent by {
            topped.lemma_straggler_member(agent, m, i);
            topped.lemma_straggler_member(agent, m, j);
            topped.lemma_straggler_member(agent, n, j);
            assert(topped.assigned[i] == self.assigned[i]) by {
                if self.pending.contains(i as usize) {
                    let p = self.pending.index_of(i as usize);
                    assert(self.assigned[self.pending[p] as int].len() == 0);
                }
                let firsts = self.pending.take(
                    if self.free_slots(agent) < self.pending.len() {
                        self.free_slots(agent)
                    } else {
                        self.pending.len() as int
                    },
                );
                if firsts.contains(i as usize) {
                    let p = firsts.index_of(i as usize);
                    assert(self.pending[p] == i as usize);
                }
            }
            assert(picks.contains(i as usize));
        }
    }

    proof fn lemma_all_promoted(self, n: int)
        requires
            self.shaped(),
            0 <= n <= self.agents(),
        ensures
            forall|a: int, j: int|
                0 <= a < n && self.alive[a] && 0 <= j < self.standbys[a].len() ==> promoted_since(
                    self.promotions_below(n),
                    0,
                    a as usize,
                    (#[trigger] self.standbys[a][j])@.label,
                ),
            forall|k: int|
                0 <= k < self.promotions_below(n).len() ==> ((#[trigger] self.promotions_below(
                    n,
                )[k]) matches ActionModel::Send {
                    agent,
                    message: ToAgentModel::Promote { child },
                } && agent < n && self.alive[agent as int] && exists|j: int|
                    0 <= j < self.standbys[agent as int].len() && (
                    #[trigger] self.standbys[agent as int][j])@.label == child),
        decreases n,
    {
        if n > 0 {
            self.lemma_all_promoted(n - 1);
            let before = self.promotions_below(n - 1);
            let now = self.promotions_below(n);
            assert forall|a: int, j: int|
                0 <= a < n && self.alive[a] && 0 <= j
                    < self.standbys[a].len() implies promoted_since(
                now,
                0,
                a as usize,
                (#[trigger] self.standbys[a][j])@.label,
            ) by {
                let child = self.standbys[a][j]@.label;
                if a < n - 1 {
                    assert(promoted_since(before, 0, a as usize, child));
                    let k = choose|k: int|
                        0 <= k < before.len() && #[trigger] before[k] == (ActionModel::Send {
                            agent: a as usize,
                            message: ToAgentModel::Promote { child },
                        });
                    assert(now[k] == before[k]);
                } else {
                    assert(now[before.len() + j] == (ActionModel::Send {
                        agent: a as usize,
                        message: ToAgentModel::Promote { child },
                    }));
                }
            }
            assert forall|k: int| 0 <= k < now.len() implies ((#[trigger] now[k]) matches
                ActionModel::Send { agent, message: ToAgentModel::Promote { child } } && agent < n
                && self.alive[agent as int] && exists|j: int|
                0 <= j < self.standbys[agent as int].len() && (
                #[trigger] self.standbys[agent as int][j])@.label == child) by {
                if k < before.len() {
                    assert(now[k] == before[k]);
                } else {
                    let j = k - before.len();
                    assert(self.standbys[n - 1][j]@.label == now[k]->message->child);
                }
            }
        }
    }

    /// A lost agent is told of first and runs nothing any more; every child that a
    /// survivor holds back is promoted there, and no other is. A task that already
    /// waited stays ahead of those that wait again.
    pub proof fn law_a_loss_is_told_and_rerouted(self, agent: usize)
        requires
            self.wf(),
            agent < self.agents(),
        ensures
            self.after(AgentEvent::Lost(agent)) matches Ok(next) && {
                let from = self.out.len() as int;
                &&& next.alive == self.alive.update(agent as int, false)
                &&& next.labels == self.labels
                &&& next.capacity == self.capacity
                &&& next.results == self.results
                &&& next.remaining == self.remaining
                &&& next.in_flight[agent as int] == 0
                &&& forall|i: int|
                    0 <= i < self.payloads.len() ==> !(#[trigger] next.assigned[i]).contains(agent)
                &&& from < next.out.len()
                &&& next.out[from] == (ActionModel::Emit {
                    event: EventModel::Node {
                        host: self.labels[agent as int],
                        state: NodeState::Lost,
                    },
                })
                &&& forall|a: int, j: int|
                    0 <= a < self.agents() && a != agent && self.alive[a] && 0 <= j
                        < self.standbys[a].len() ==> promoted_since(
                        next.out,
                        from,
                        a as usize,
                        (#[trigger] self.standbys[a][j])@.label,
                    )
                &&& forall|a: int|
                    0 <= a < self.agents() ==> (#[trigger] next.standbys[a]) == if next.alive[a] {
                        Seq::<ChildAd>::empty()
                    } else {
                        self.standbys[a]
                    }
                &&& forall|k: int|
                    from <= k < next.out.len() ==> ((#[trigger] next.out[k]) matches
                        ActionModel::Send {
                        agent: to,
                        message: ToAgentModel::Promote { child },
                    } ==> to < self.agents() && next.alive[to as int] && exists|j: int|
                        0 <= j < self.standbys[to as int].len() && (
                        #[trigger] self.standbys[to as int][j])@.label == child)
                &&& forall|i: int, j: int|
                    0 <= i < j < next.pending.len() && self.pending.contains(
                        #[trigger] next.pending[j],
                    ) ==> self.pending.contains(#[trigger] next.pending[i])
            },
    {
        let event = EventModel::Node {
            host: self.labels[agent as int],
            state: NodeState::Lost,
        };
        let told = self.reporting(agent, NodeState::Lost);
        self.lemma_doing_wf(ActionModel::Emit { event });
        told.lemma_requeue_wf(agent);
        let requeued = told.requeued(agent);
        let n = requeued.agents() as int;
        requeued.lemma_rerouted_wf(n);
        let mid = requeued.rerouted();
        mid.lemma_filled_below_hands_out(n);
        mid.lemma_filled_below_wf(n);
        requeued.lemma_all_promoted(n);
        let next = mid.filled_below(n);
        let from = self.out.len() as int;
        let m = mid.out.len() as int;
        let all = requeued.promotions_below(n);
        assert forall|k: int| from <= k < m implies next.out[k] == mid.out[k] by {
            assert(next.out.take(m)[k] == next.out[k]);
        }
        assert(next.out[from] == (ActionModel::Emit { event }));
        assert forall|i: int| 0 <= i < self.payloads.len() implies !(
        #[trigger] next.assigned[i]).contains(agent) by {
            if next.assigned[i].contains(agent) {
                let k = next.assigned[i].index_of(agent);
                assert(next.assigned[i][k] == agent);
                assert(next.alive[next.assigned[i][k] as int]);
            }
        }
        assert forall|a: int, j: int|
            0 <= a < self.agents() && a != agent && self.alive[a] && 0 <= j
                < self.standbys[a].len() implies promoted_since(
            next.out,
            from,
            a as usize,
            (#[trigger] self.standbys[a][j])@.label,
        ) by {
            let child = self.standbys[a][j]@.label;
            assert(requeued.standbys[a][j]@.label == child);
            assert(promoted_since(all, 0, a as usize, child));
            let k = choose|k: int|
                0 <= k < all.len() && #[trigger] all[k] == (ActionModel::Send {
                    agent: a as usize,
                    message: ToAgentModel::Promote { child },
                });
            assert(mid.out[from + 1 + k] == all[k]);
            assert(next.out[from + 1 + k] == all[k]);
        }
        assert forall|k: int| from <= k < next.out.len() implies ((#[trigger] next.out[k]) matches
            ActionModel::Send { agent: to, message: ToAgentModel::Promote { child } } ==> to
            < self.agents() && next.alive[to as int] && exists|j: int|
            0 <= j < self.standbys[to as int].len() && (#[trigger] self.standbys[to as int][j])@.label
                == child) by {
            if k < m {
                if k > from {
                    assert(mid.out[k] == all[k - from - 1]);
                }
            } else {
                assert(right_message(mid, next, k));
            }
        }
        assert forall|i: int, j: int|
            0 <= i < j < next.pending.len() && self.pending.contains(
                #[trigger] next.pending[j],
            ) implies self.pending.contains(#[trigger] next.pending[i]) by {
            let gone = mid.pending.len() - next.pending.len();
            let p = self.pending.len() as int;
            assert(next.pending[j] == mid.pending[gone + j]);
            assert(next.pending[i] == mid.pending[gone + i]);
            told.lemma_orphans(agent, told.tasks() as int);
            let orphans = told.orphans_below(agent, told.tasks() as int);
            if gone + j >= p {
                assert(orphans.contains(orphans[gone + j - p]));
                let q = self.pending.index_of(next.pending[j]);
                assert(self.assigned[self.pending[q] as int].len() == 0);
            }
            assert(self.pending[gone + i] == next.pending[i]);
        }
        assert(mid.standbys.len() == self.agents());
    }

    /// Ending a run says goodbye to each live agent once, in order, and to no lost one:
    /// first each is reported done, then each is asked to shut down.
    pub proof fn law_a_run_ends_with_goodbyes(self, n: int)
        requires
            self.shaped(),
            0 <= n <= self.agents(),
        ensures
            ({
                let reports = self.farewells_below(n, true);
                let requests = self.farewells_below(n, false);
                &&& reports.len() == requests.len()
                &&& forall|k: int|
                    0 <= k < requests.len() ==> ((#[trigger] requests[k]) matches ActionModel::Send {
                        agent,
                        message: ToAgentModel::Shutdown,
                    } && agent < n && self.alive[agent as int] && reports[k] == (
                    ActionModel::Emit {
                        event: EventModel::Node {
                            host: self.labels[agent as int],
                            state: NodeState::Done,
                        },
                    }))
                &&& forall|k: int, l: int|
                    0 <= k < l < requests.len() ==> (#[trigger] requests[k])->agent < (
                    #[trigger] requests[l])->agent
                &&& forall|a: int|
                    0 <= a < n && #[trigger] self.alive[a] ==> exists|k: int|
                        0 <= k < requests.len() && (#[trigger] requests[k]) == (ActionModel::Send {
                            agent: a as usize,
                            message: ToAgentModel::Shutdown,
                        })
            }),
        decreases n,
    {
        if n > 0 {
            self.law_a_run_ends_with_goodbyes(n - 1);
            let before = self.farewells_below(n - 1, false);
            let now = self.farewells_below(n, false);
            let told = self.farewells_below(n - 1, true);
            let tell = self.farewells_below(n, true);
            assert forall|k: int| 0 <= k < before.len() implies now[k] == before[k] && tell[k]
                == told[k] by {}
            assert forall|k: int| 0 <= k < now.len() implies ((#[trigger] now[k]) matches
                ActionModel::Send { agent, message: ToAgentModel::Shutdown } && agent < n
                && self.alive[agent as int] && tell[k] == (ActionModel::Emit {
                event: EventModel::Node {
                    host: self.labels[agent as int],
                    state: NodeState::Done,
                },
            })) by {
                if k < before.len() {
                    assert(now[k] == before[k]);
                }
            }
            assert forall|a: int| 0 <= a < n && #[trigger] self.alive[a] implies exists|k: int|
                0 <= k < now.len() && (#[trigger] now[k]) == (ActionModel::Send {
                    agent: a as usize,
                    message: ToAgentModel::Shutdown,
                }) by {
                if a < n - 1 {
                    let k = choose|k: int|
                        0 <= k < before.len() && (#[trigger] before[k]) == (ActionModel::Send {
                            agent: a as usize,
                            message: ToAgentModel::Shutdown,
                        });
                    assert(now[k] == before[k]);
                } else {
                    assert(now[before.len() as int] == (ActionModel::Send {
                        agent: a as usize,
                        message: ToAgentModel::Shutdown,
                    }));
                }
            }
        }
    }

    /// A run begins by announcing how many tasks it has; then each agent that got a
    /// task is reported working and gets its inputs whole. The run's settings are those
    /// it was given.
    pub proof fn law_a_run_begins_with_whole_inputs(self, n: int)
        requires
            self.wf(),
            0 <= n <= self.agents(),
        ensures
            ({
                let next = self.put_to_work_below(n);
                &&& next.wf()
                &&& hands_out(self, next)
                &&& forall|a: int|
                    0 <= a < n && (#[trigger] next.in_flight[a]) > 0 ==> reported_since(
                        next.out,
                        self.out.len() as int,
                        EventModel::Node { host: self.labels[a], state: NodeState::Working },
                    )
                &&& forall|a: int|
                    n <= a < self.agents() ==> (#[trigger] next.in_flight[a]) == self.in_flight[a]
            }),
        decreases n,
    {
        self.lemma_put_to_work_below_hands_out(n);
        if n > 0 {
            self.law_a_run_begins_with_whole_inputs(n - 1);
            let before = self.put_to_work_below(n - 1);
            let next = self.put_to_work_below(n);
            let agent = (n - 1) as usize;
            before.lemma_filled_hands_out(agent);
            before.law_filling_is_work_conserving(agent);
            let filled = before.filled(agent);
            let m = before.out.len() as int;
            let from = self.out.len() as int;
            assert forall|a: int| 0 <= a < n && (#[trigger] next.in_flight[a])
                > 0 implies reported_since(
                next.out,
                from,
                EventModel::Node { host: self.labels[a], state: NodeState::Working },
            ) by {
                let event = EventModel::Node { host: self.labels[a], state: NodeState::Working };
                if a == n - 1 {
                    assert(next.out[filled.out.len() as int] == (ActionModel::Emit { event }));
                } else {
                    assert(before.in_flight[a] > 0);
                    assert(reported_since(before.out, from, event));
                    let k = choose|k: int|
                        from <= k < before.out.len() && #[trigger] before.out[k] == (
                        ActionModel::Emit { event });
                    assert(filled.out.take(m)[k] == filled.out[k]);
                    assert(next.out[k] == before.out[k]);
                }
            }
        }
    }
}

/// Without any outcome every task is open.
pub(crate) proof fn lemma_all_open(results: Seq<Option<Outcome>>, n: int)
    requires
        0 <= n <= results.len(),
        forall|i: int| 0 <= i < results.len() ==> (#[trigger] results[i]) is None,
    ensures
        open_below(results, n) == n,
    decreases n,
{
    if n > 0 {
        lemma_all_open(results, n - 1);
        assert(results[n - 1] is None);
    }
}

impl JobModel {
    /// No event changes who takes part or whether racing is allowed.
    pub proof fn law_settings_stay(self, event: AgentEvent)
        requires
            self.wf(),
            about(event) < self.agents(),
        ensures
            self.after(event) matches Ok(next) ==> next.labels == self.labels && next.speculative
                == self.speculative && next.payloads == self.payloads,
    {
        self.law_events_keep_the_invariant(event);
        match event {
            AgentEvent::Lost(agent) => {
                let told = self.reporting(agent, NodeState::Lost);
                self.lemma_doing_wf(
                    ActionModel::Emit {
                        event: EventModel::Node {
                            host: self.labels[agent as int],
                            state: NodeState::Lost,
                        },
                    },
                );
                told.lemma_requeue_wf(agent);
                let b = told.requeued(agent);
                b.lemma_rerouted_wf(b.agents() as int);
                b.rerouted().lemma_filled_below_wf(b.agents() as int);
            },
            AgentEvent::Message(agent, message) => match message {
                FromAgent::Capacity { slots } => {
                    self.lemma_capacity_wf(agent, slots);
                    (JobModel {
                        capacity: self.capacity.update(agent as int, slots),
                        ..self
                    }).lemma_put_to_work_wf(agent);
                },
                FromAgent::Completed { task_id, output, via } => {
                    self.lemma_finished_settings(task_id, Ok(output), true, agent, via@);
                },
                FromAgent::Failed { task_id, error, via } => {
                    self.lemma_finished_settings(task_id, Err(error), false, agent, via@);
                },
                _ => {},
            },
        }
    }

    proof fn lemma_finished_settings(
        self,
        task: TaskId,
        result: Outcome,
        ok: bool,
        completer: usize,
        via: Seq<char>,
    )
        requires
            self.wf(),
            completer < self.agents(),
        ensures
            self.finished(task, result, ok, completer, via).speculative == self.speculative,
    {
        if self.running(task as int) {
            let t = task as int;
            self.lemma_record_wf(t, result);
            let recorded = self.recorded(t, result);
            let event = EventModel::TaskFinished {
                host: joined_label(self.labels[completer as int], via),
                task,
                ok,
            };
            recorded.lemma_doing_wf(ActionModel::Emit { event });
            let mid = recorded.doing(ActionModel::Emit { event });
            assert forall|k: int| 0 <= k < self.assigned[t].len() implies (
            #[trigger] self.assigned[t][k]) < self.agents() by {}
            mid.lemma_refilled_wf(self.assigned[t]);
        }
    }

    /// A node that joins changes neither the inputs nor whether racing is allowed.
    pub proof fn law_a_join_keeps_the_settings(self, label: Seq<char>, capacity: usize)
        requires
            self.wf(),
            self.agents() < usize::MAX,
        ensures
            self.joined(label, capacity).put_to_work(self.agents() as usize).speculative
                == self.speculative,
            self.joined(label, capacity).put_to_work(self.agents() as usize).payloads
                == self.payloads,
    {
        self.lemma_joined_wf(label, capacity);
        self.joined(label, capacity).lemma_put_to_work_wf(self.agents() as usize);
    }
}

/// What a job stands for holds all that it holds: the inputs whole, the outcomes, who runs
/// what, and what is to be sent and reported, each in its order.
pub proof fn law_a_job_keeps_its_contents(job: Job, i: int)
    ensures
        job@.labels.len() == job.labels@.len(),
        0 <= i < job.labels@.len() ==> job@.labels[i] == job.labels@[i]@,
        job@.payloads.len() == job.payloads@.len(),
        0 <= i < job.payloads@.len() ==> job@.payloads[i] == job.payloads@[i]@,
        job@.assigned.len() == job.assigned@.len(),
        0 <= i < job.assigned@.len() ==> job@.assigned[i] == job.assigned@[i]@,
        job@.standbys.len() == job.standbys@.len(),
        0 <= i < job.standbys@.len() ==> job@.standbys[i] == job.standbys@[i]@,
        job@.out.len() == job.out@.len(),
        0 <= i < job.out@.len() ==> job@.out[i] == job.out@[i]@,
        job@.results == job.results@,
        job@.pending == job.pending@,
        job@.alive == job.alive@,
        job@.capacity == job.capacity@,
        job@.in_flight == job.in_flight@,
        job@.remaining == job.remaining,
        job@.speculative == job.speculative,
{
}

/// What an action stands for is the very message to the very agent, or the very event.
pub proof fn law_actions_keep_their_contents(agent: usize, message: ToAgent, event: Event)
    ensures
        (JobAction::Send { agent, message })@ == (ActionModel::Send { agent, message: message@ }),
        JobAction::Emit(event)@ == (ActionModel::Emit { event: event@ }),
{
}

/// What holds of every run between two events, said outright: every task is waiting,
/// running or resolved, and only one of these; a task runs on at most two agents, both up;
/// the counts say how many tasks each agent runs and how many are open.
pub proof fn law_what_always_holds_of_a_run(m: JobModel, i: int, agent: usize)
    requires
        m.wf(),
        0 <= i < m.payloads.len(),
    ensures
        m.results.len() == m.payloads.len(),
        m.assigned.len() == m.payloads.len(),
        m.pending.contains(i as usize) <==> m.results[i] is None && m.assigned[i].len() == 0,
        m.results[i] is Some ==> m.assigned[i].len() == 0,
        m.assigned[i].len() <= 2,
        m.assigned[i].len() == 2 ==> m.assigned[i][0] != m.assigned[i][1],
        m.assigned[i].contains(agent) ==> agent < m.labels.len() && m.alive[agent as int]
            && m.in_flight[agent as int] > 0,
{
    if m.pending.contains(i as usize) {
        let j = m.pending.index_of(i as usize);
        assert(m.pending[j] == i as usize);
    }
    if m.assigned[i].contains(agent) {
        let k = m.assigned[i].index_of(agent);
        assert(m.assigned[i][k] == agent);
        assert(m.assigned[i][k] < m.agents());
        assert(m.in_flight[agent as int] as nat == load(m.assigned, agent));
        lemma_load_positive(m.assigned, agent, i, m.tasks() as int);
    }
}

/// How many tasks an agent runs is counted task by task, and every agent's count says just
/// that; how many tasks are open is counted in the same way.
pub proof fn law_counts_go_task_by_task(m: JobModel, agent: usize, n: int)
    requires
        m.wf(),
        0 <= n < m.payloads.len(),
        agent < m.labels.len(),
    ensures
        m.in_flight[agent as int] == load_below(m.assigned, agent, m.payloads.len() as int),
        load_below(m.assigned, agent, 0) == 0,
        load_below(m.assigned, agent, n + 1) == load_below(m.assigned, agent, n) + (
        if m.assigned[n].contains(agent) {
            1int
        } else {
            0int
        }),
        m.remaining == open_below(m.results, m.payloads.len() as int),
        open_below(m.results, 0) == 0,
        open_below(m.results, n + 1) == open_below(m.results, n) + (if m.results[n] is None {
            1int
        } else {
            0int
        }),
{
    assert(m.in_flight[agent as int] as nat == load(m.assigned, agent));
}

impl JobModel {
    proof fn lemma_fills_only_send(self, n: int, k: int)
        requires
            self.wf(),
            0 <= n <= self.agents(),
            self.out.len() <= k < self.filled_below(n).out.len(),
        ensures
            self.filled_below(n).out[k] is Send,
        decreases n,
    {
        if n > 0 {
            self.lemma_filled_below_wf(n - 1);
            let before = self.filled_below(n - 1);
            let agent = (n - 1) as usize;
            before.lemma_filled_hands_out(agent);
            let next = before.filled(agent);
            if k < before.out.len() {
                self.lemma_fills_only_send(n - 1, k);
                assert(next.out.take(before.out.len() as int)[k] == next.out[k]);
            } else {
                before.lemma_fill_only_sends(agent, k);
            }
        }
    }

    /// A loss is reported once, as that of the agent lost, and nothing else is reported on it.
    pub proof fn law_a_loss_is_reported_once(self, agent: usize, k: int)
        requires
            self.wf(),
            agent < self.agents(),
        ensures
            self.after(AgentEvent::Lost(agent)) matches Ok(next) && (self.out.len() < k
                < next.out.len() ==> next.out[k] is Send),
    {
        let event = EventModel::Node {
            host: self.labels[agent as int],
            state: NodeState::Lost,
        };
        let told = self.reporting(agent, NodeState::Lost);
        self.lemma_doing_wf(ActionModel::Emit { event });
        told.lemma_requeue_wf(agent);
        let requeued = told.requeued(agent);
        let n = requeued.agents() as int;
        requeued.lemma_rerouted_wf(n);
        let mid = requeued.rerouted();
        mid.lemma_filled_below_hands_out(n);
        requeued.lemma_promotions(n);
        let next = mid.filled_below(n);
        if self.out.len() < k < next.out.len() {
            if k < mid.out.len() {
                assert(next.out.take(mid.out.len() as int)[k] == next.out[k]);
                assert(mid.out[k] == requeued.promotions_below(n)[k - self.out.len() - 1]);
            } else {
                mid.lemma_fills_only_send(n, k);
            }
        }
    }
}

} // verus!
