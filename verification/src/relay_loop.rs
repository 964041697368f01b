//! A relay's life: announcing its children, then splicing the two sides until the
//! parent is done or the subtree dies.
use vstd::prelude::*;
use vstd::string::*;

use crate::control::{ControlAction, KillMode};
use crate::heartbeat::{silent_too_long, timed_out, HeartbeatConfig};
use crate::job::{about, AgentEvent};
use crate::observability::{EventModel, NodeState};
use crate::protocol::{
    ads, AdModel, ChildAd, FromAgent, FromAgentModel, TaskId, ToAgent, ToAgentModel,
};
use crate::relay::{
    asked_since, carries, dispatches, goes_on, handing_out, law_the_first_label_is_found,
    lemma_carries_said, owner_of, position_from, split_head, total_below, Relay, RelayAction, RelayActionModel, RelayError, RelayModel,
    WaitingModel,
};
use crate::text::{holds, join, joined, texts};

verus! {

/// The message of a relay none of whose children could be launched, naming why
/// each dropped.
pub open spec fn childless(failures: Seq<Seq<char>>) -> Seq<char> {
    "rayonet: relay has no usable children: "@ + joined(failures, "; "@)
}

/// The message of a relay none of whose children could be launched, naming why
/// each dropped.
fn no_usable_children(failures: &Vec<String>) -> (r: String)
    ensures
        r@ == childless(texts(failures@)),
{
    let mut r = "rayonet: relay has no usable children: ".to_owned();
    let detail = join(failures, "; ");
    r.append(detail.as_str());
    r
}

/// The text of a relay's failure; `shown` is the offending message as displayed.
pub open spec fn relay_failure(e: RelayError, shown: Seq<char>) -> Seq<char> {
    match e {
        RelayError::UnexpectedFromParent(_) => "unexpected message from parent: "@ + shown,
        RelayError::RepeatedHandshake => "a child sent a handshake message on the live channel"@,
        RelayError::ExpectedActivate(_) => "expected Activate, got "@ + shown,
    }
}

/// The text of a relay's failure; `shown` is the offending message as displayed.
pub fn relay_failure_message(e: &RelayError, shown: &str) -> (r: String)
    ensures
        r@ == relay_failure(*e, shown@),
        r@ == match *e {
            RelayError::UnexpectedFromParent(_) => "unexpected message from parent: "@ + shown@,
            RelayError::RepeatedHandshake => {
                "a child sent a handshake message on the live channel"@
            },
            RelayError::ExpectedActivate(_) => "expected Activate, got "@ + shown@,
        },
{
    match e {
        RelayError::UnexpectedFromParent(_) => {
            let mut r = "unexpected message from parent: ".to_owned();
            r.append(shown);
            r
        },
        RelayError::RepeatedHandshake => {
            "a child sent a handshake message on the live channel".to_owned()
        },
        RelayError::ExpectedActivate(_) => {
            let mut r = "expected Activate, got ".to_owned();
            r.append(shown);
            r
        },
    }
}

/// Whether a message to a child must arrive: a task must, while a shutdown, a probe or
/// a control is sent as far as the child still listens.
pub fn must_arrive(message: &ToAgent) -> (r: bool)
    ensures
        r == (*message is Assign),
{
    match message {
        ToAgent::Assign { .. } => true,
        _ => false,
    }
}

/// Whether a failure to carry out `action` ends the relay. While it runs, a parent
/// that cannot be told and a task that does not arrive do; once it is closing,
/// nothing does.
pub open spec fn fatal(action: RelayAction, closing: bool) -> bool {
    !closing && match action {
        RelayAction::ToParent(_) => true,
        RelayAction::Report(_) => true,
        RelayAction::ToChild { message, .. } => message is Assign,
        RelayAction::Abandon { .. } => false,
    }
}

/// Whether a failure to carry out `action` ends the relay.
pub fn failure_ends(action: &RelayAction, closing: bool) -> (r: bool)
    ensures
        r == fatal(*action, closing),
{
    if closing {
        return false;
    }
    match action {
        RelayAction::ToParent(_) => true,
        RelayAction::Report(_) => true,
        RelayAction::ToChild { message, .. } => must_arrive(message),
        RelayAction::Abandon { .. } => false,
    }
}

/// How children are described to the parent, one after the other. A latency that
/// was not measured counts as zero.
pub open spec fn described(
    labels: Seq<String>,
    ids: Seq<String>,
    capacity: Seq<usize>,
    latencies: Seq<u64>,
) -> Seq<AdModel> {
    Seq::new(
        labels.len(),
        |c: int|
            AdModel {
                label: labels[c]@,
                id: ids[c]@,
                slots: capacity[c],
                latency_us: if c < latencies.len() {
                    latencies[c]
                } else {
                    0
                },
            },
    )
}

/// What a relay opens with once its children finished their handshake: their
/// description for the parent. A relay without a usable child has nothing to offer:
/// it fails, naming why each dropped, and announces nothing.
pub fn opening(
    labels: &Vec<String>,
    ids: &Vec<String>,
    capacity: &Vec<usize>,
    latencies: &Vec<u64>,
    failures: &Vec<String>,
) -> (r: Result<Vec<ChildAd>, String>)
    requires
        ids@.len() == labels@.len(),
        capacity@.len() == labels@.len(),
    ensures
        match r {
            Err(e) => labels@.len() == 0 && e@ == childless(texts(failures@)) && e@
                == "rayonet: relay has no usable children: "@ + joined(texts(failures@), "; "@),
            Ok(children) => labels@.len() > 0 && ads(children@) == described(
                labels@,
                ids@,
                capacity@,
                latencies@,
            ),
        },
{
    if labels.len() == 0 {
        Err(no_usable_children(failures))
    } else {
        Ok(announcement(labels, ids, capacity, latencies))
    }
}

/// Describe the built children to the parent, one after the other.
fn announcement(
    labels: &Vec<String>,
    ids: &Vec<String>,
    capacity: &Vec<usize>,
    latencies: &Vec<u64>,
) -> (r: Vec<ChildAd>)
    requires
        ids@.len() == labels@.len(),
        capacity@.len() == labels@.len(),
    ensures
        ads(r@) == described(labels@, ids@, capacity@, latencies@),
{
    let mut r: Vec<ChildAd> = Vec::new();
    let mut c: usize = 0;
    while c < labels.len()
        invariant
            ids@.len() == labels@.len(),
            capacity@.len() == labels@.len(),
            c <= labels@.len(),
            r@.len() == c,
            forall|d: int|
                0 <= d < c ==> (#[trigger] r@[d])@ == (AdModel {
                    label: labels@[d]@,
                    id: ids@[d]@,
                    slots: capacity@[d],
                    latency_us: if d < latencies@.len() {
                        latencies@[d]
                    } else {
                        0
                    },
                }),
        decreases labels@.len() - c,
    {
        let latency: u64 = if c < latencies.len() {
            latencies[c]
        } else {
            0
        };
        r.push(ChildAd::new(labels[c].clone(), ids[c].clone(), capacity[c], latency));
        c += 1;
    }
    proof {
        assert(ads(r@) =~= described(labels@, ids@, capacity@, latencies@));
    }
    r
}

/// Whether each child is active, by the parent's answer to the announcement, or
/// `None` if the parent left before naming the active set.
pub fn activation(labels: &Vec<String>, reply: Option<ToAgent>) -> (r: Result<
    Option<Vec<bool>>,
    RelayError,
>)
    ensures
        match reply {
            Some(ToAgent::Activate { active }) => r matches Ok(Some(flags)) && flags@ == Seq::new(
                labels@.len(),
                |c: int| texts(active@).contains(labels@[c]@),
            ),
            Some(ToAgent::Shutdown) => r == Ok::<Option<Vec<bool>>, RelayError>(None),
            None => r == Ok::<Option<Vec<bool>>, RelayError>(None),
            Some(other) => r == Err::<Option<Vec<bool>>, RelayError>(
                RelayError::ExpectedActivate(other),
            ),
        },
{
    match reply {
        Some(ToAgent::Activate { active }) => {
            let mut flags: Vec<bool> = Vec::new();
            let mut c: usize = 0;
            while c < labels.len()
                invariant
                    c <= labels@.len(),
                    flags@ =~= Seq::new(
                        c as nat,
                        |d: int| texts(active@).contains(labels@[d]@),
                    ),
                decreases labels@.len() - c,
            {
                flags.push(holds(&active, labels[c].as_str()));
                c += 1;
            }
            Ok(Some(flags))
        },
        Some(ToAgent::Shutdown) => Ok(None),
        None => Ok(None),
        Some(other) => Err(RelayError::ExpectedActivate(other)),
    }
}

/// What happened next to a relay.
#[derive(Debug)]
pub enum RelayInput {
    /// The parent sent a message, or its connection ended.
    Parent(Option<ToAgent>),
    /// A child sent something or was lost.
    Child(AgentEvent),
    /// A child that was added later finished its handshake.
    Joined {
        /// Its label.
        label: String,
        /// Its slots.
        capacity: usize,
    },
    /// It is time for the heartbeat.
    Beat,
}

/// A relay at work.
#[derive(Debug)]
pub struct RelayRun {
    /// The child-side schedule.
    pub sched: Relay,
    /// The run's liveness settings.
    pub heartbeat: HeartbeatConfig,
    /// When the parent was last heard from.
    pub last_parent: u64,
}

impl RelayModel {
    /// The relay after each live child among the first `n` is pinged.
    pub open spec fn pinged_below(self, n: int) -> RelayModel
        decreases n,
    {
        if n <= 0 {
            self
        } else if self.alive[n - 1] {
            self.pinged_below(n - 1).doing(
                RelayActionModel::ToChild { child: (n - 1) as usize, message: ToAgentModel::Ping },
            )
        } else {
            self.pinged_below(n - 1)
        }
    }

    /// Whether child `c` is up but has been silent for longer than `timeout`.
    pub open spec fn stale(self, c: int, now: u64, timeout: u64) -> bool {
        self.alive[c] && silent_too_long(self.last_activity[c], now, timeout)
    }

    /// Whether any child is stale.
    pub open spec fn any_stale(self, now: u64, timeout: u64) -> bool {
        exists|c: int| 0 <= c < self.children() && #[trigger] self.stale(c, now, timeout)
    }

    /// The relay after the stale children among the first `n` are given up.
    pub open spec fn given_up_below(self, n: int, now: u64, timeout: u64) -> RelayModel
        decreases n,
    {
        if n <= 0 {
            self
        } else {
            let before = self.given_up_below(n - 1, now, timeout);
            if self.stale(n - 1, now, timeout) {
                before.lost((n - 1) as usize).doing(
                    RelayActionModel::Abandon { child: (n - 1) as usize },
                )
            } else {
                before
            }
        }
    }

    /// The relay after a heartbeat, and whether it goes on: every live child is
    /// pinged; if the parent has been silent too long the relay stops; otherwise
    /// the children silent too long are given up and their work moves on.
    pub open spec fn after_beat(self, last_parent: u64, now: u64, heartbeat: HeartbeatConfig) -> (
        RelayModel,
        bool,
    ) {
        if !heartbeat.enabled() {
            (self, true)
        } else {
            let pinged = self.pinged_below(self.children() as int);
            if silent_too_long(last_parent, now, heartbeat.timeout) {
                (pinged, false)
            } else if pinged.any_stale(now, heartbeat.timeout) {
                let next = pinged.given_up_below(
                    self.children() as int,
                    now,
                    heartbeat.timeout,
                ).dispatched();
                (next, next.any_alive())
            } else {
                (pinged, true)
            }
        }
    }

    /// The relay after a message from its parent (`None`: the parent left), and
    /// whether it goes on; or the reason it stops.
    pub open spec fn after_parent(self, message: Option<ToAgent>) -> Result<
        (RelayModel, bool),
        RelayError,
    > {
        match message {
            None => Ok((self, false)),
            Some(ToAgent::Shutdown) => Ok((self, false)),
            Some(ToAgent::Assign { task_id, payload }) => Ok(
                (
                    (RelayModel {
                        pending: self.pending.push(
                            WaitingModel { task: task_id, payload: payload@ },
                        ),
                        ..self
                    }).dispatched(),
                    true,
                ),
            ),
            Some(ToAgent::Promote { child }) => {
                let at = position_from(self.labels, child@, 0);
                if at < self.children() && !self.active[at] {
                    Ok(
                        (
                            (RelayModel {
                                active: self.active.update(at, true),
                                ..self
                            }).reporting(at as usize, NodeState::Idle).advertising().dispatched(),
                            true,
                        ),
                    )
                } else {
                    Ok((self, true))
                }
            },
            Some(ToAgent::Control { target, action }) => Ok(self.after_control(target@, action)),
            Some(ToAgent::Ping) => Ok(
                (
                    self.doing(RelayActionModel::ToParent { reply: FromAgentModel::Pong }),
                    true,
                ),
            ),
            Some(other) => Err(RelayError::UnexpectedFromParent(other)),
        }
    }

    proof fn lemma_pinged(self, n: int)
        requires
            self.wf(),
            0 <= n <= self.children(),
        ensures
            self.pinged_below(n).wf(),
            self.pinged_below(n) == (RelayModel { out: self.pinged_below(n).out, ..self }),
        decreases n,
    {
        if n > 0 {
            self.lemma_pinged(n - 1);
        }
    }

    proof fn lemma_given_up(self, n: int, now: u64, timeout: u64)
        requires
            self.wf(),
            0 <= n <= self.children(),
        ensures
            self.given_up_below(n, now, timeout).wf(),
            self.given_up_below(n, now, timeout).labels == self.labels,
            self.given_up_below(n, now, timeout).last_activity == self.last_activity,
            forall|c: int|
                0 <= c < self.children() ==> (#[trigger] self.given_up_below(
                    n,
                    now,
                    timeout,
                ).alive[c]) == (self.alive[c] && !(c < n && self.stale(c, now, timeout))),
        decreases n,
    {
        if n > 0 {
            self.lemma_given_up(n - 1, now, timeout);
            if self.stale(n - 1, now, timeout) {
                let before = self.given_up_below(n - 1, now, timeout);
                before.law_a_lost_child_loses_no_task((n - 1) as usize, 0);
            }
        }
    }

    proof fn lemma_given_up_tasks(self, n: int, now: u64, timeout: u64, task: TaskId)
        requires
            self.wf(),
            0 <= n <= self.children(),
        ensures
            self.given_up_below(n, now, timeout).holds_task(task) <==> self.holds_task(task),
        decreases n,
    {
        if n > 0 {
            self.lemma_given_up_tasks(n - 1, now, timeout, task);
            self.lemma_given_up(n - 1, now, timeout);
            if self.stale(n - 1, now, timeout) {
                let before = self.given_up_below(n - 1, now, timeout);
                before.law_a_lost_child_loses_no_task((n - 1) as usize, task);
            }
        }
    }

    /// A heartbeat gives up exactly the children silent for longer than the
    /// timeout: one heard from in time stays, and no task is dropped with those
    /// given up.
    pub proof fn law_a_beat_gives_up_only_the_silent(
        self,
        last_parent: u64,
        now: u64,
        heartbeat: HeartbeatConfig,
        c: int,
        task: TaskId,
    )
        requires
            self.wf(),
            heartbeat.enabled(),
            !silent_too_long(last_parent, now, heartbeat.timeout),
            0 <= c < self.children(),
        ensures
            self.after_beat(last_parent, now, heartbeat).0.wf(),
            self.after_beat(last_parent, now, heartbeat).0.alive[c] == (self.alive[c]
                && !silent_too_long(self.last_activity[c], now, heartbeat.timeout)),
            self.after_beat(last_parent, now, heartbeat).0.holds_task(task) <==> self.holds_task(
                task,
            ),
    {
        let n = self.children() as int;
        self.lemma_pinged(n);
        let pinged = self.pinged_below(n);
        pinged.lemma_given_up(n, now, heartbeat.timeout);
        pinged.lemma_given_up_tasks(n, now, heartbeat.timeout, task);
        let dropped = pinged.given_up_below(n, now, heartbeat.timeout);
        dropped.lemma_dispatched_wf();
        dropped.law_dispatch_keeps_every_task(task);
        if !pinged.any_stale(now, heartbeat.timeout) {
            assert(!pinged.stale(c, now, heartbeat.timeout));
        }
    }
}

impl RelayModel {
    proof fn lemma_pinged_carries(self, n: int, given: spec_fn(TaskId, Seq<u8>) -> bool)
        requires
            carries(self, given),
        ensures
            carries(self.pinged_below(n), given),
        decreases n,
    {
        if n > 0 {
            self.lemma_pinged_carries(n - 1, given);
            lemma_carries_said(
                self.pinged_below(n - 1),
                RelayActionModel::ToChild { child: (n - 1) as usize, message: ToAgentModel::Ping },
                given,
            );
        }
    }

    proof fn lemma_given_up_carries(
        self,
        n: int,
        now: u64,
        timeout: u64,
        given: spec_fn(TaskId, Seq<u8>) -> bool,
    )
        requires
            carries(self, given),
        ensures
            carries(self.given_up_below(n, now, timeout), given),
        decreases n,
    {
        if n > 0 {
            self.lemma_given_up_carries(n - 1, now, timeout, given);
            let before = self.given_up_below(n - 1, now, timeout);
            before.lemma_lost_carries((n - 1) as usize, given);
            lemma_carries_said(
                before.lost((n - 1) as usize),
                RelayActionModel::Abandon { child: (n - 1) as usize },
                given,
            );
        }
    }

    /// A heartbeat leaves every task with the input it was given with.
    pub proof fn law_a_beat_leaves_the_inputs(
        self,
        last_parent: u64,
        now: u64,
        heartbeat: HeartbeatConfig,
        given: spec_fn(TaskId, Seq<u8>) -> bool,
    )
        requires
            carries(self, given),
        ensures
            carries(self.after_beat(last_parent, now, heartbeat).0, given),
    {
        let n = self.children() as int;
        self.lemma_pinged_carries(n, given);
        let pinged = self.pinged_below(n);
        pinged.lemma_given_up_carries(n, now, heartbeat.timeout, given);
        pinged.given_up_below(n, now, heartbeat.timeout).lemma_dispatched_carries(given);
    }

    /// A task from the parent is taken on with its input; any other message leaves
    /// every task with the input it was given with.
    pub proof fn law_the_parent_gives_the_inputs(
        self,
        message: Option<ToAgent>,
        given: spec_fn(TaskId, Seq<u8>) -> bool,
    )
        requires
            carries(self, given),
            message matches Some(ToAgent::Assign { task_id, payload }) ==> given(task_id, payload@),
        ensures
            self.after_parent(message) matches Ok((next, _)) ==> carries(next, given),
    {
        match message {
            Some(ToAgent::Assign { task_id, payload }) => {
                let more = RelayModel {
                    pending: self.pending.push(WaitingModel { task: task_id, payload: payload@ }),
                    ..self
                };
                assert forall|i: int| 0 <= i < more.pending.len() implies given(
                    (#[trigger] more.pending[i]).task,
                    more.pending[i].payload,
                ) by {
                    if i < self.pending.len() {
                        assert(more.pending[i] == self.pending[i]);
                    }
                }
                more.lemma_dispatched_carries(given);
            },
            Some(ToAgent::Promote { child }) => {
                let at = position_from(self.labels, child@, 0);
                let more = RelayModel { active: self.active.update(at, true), ..self };
                more.lemma_reporting_carries(at as usize, NodeState::Idle, given);
                let told = more.reporting(at as usize, NodeState::Idle);
                if at < self.children() {
                    told.lemma_advertising_carries(given);
                    told.advertising().lemma_dispatched_carries(given);
                }
            },
            Some(ToAgent::Control { target, action }) => {
                self.law_a_control_keeps_the_inputs(target@, action, given);
            },
            Some(ToAgent::Ping) => {
                lemma_carries_said(
                    self,
                    RelayActionModel::ToParent { reply: FromAgentModel::Pong },
                    given,
                );
            },
            _ => {},
        }
    }
}

impl RelayModel {
    /// What the parent's messages do: a task waits behind those already waiting and is
    /// dispatched; a probe is answered; the end of the run or of the connection ends the
    /// relay and leaves it as it is; a handshake message is an error that names it; a
    /// control is carried out.
    pub proof fn law_what_the_parent_says(
        self,
        task_id: TaskId,
        payload: Vec<u8>,
        target: String,
        action: ControlAction,
        version: u32,
        fn_key: String,
        heartbeat: HeartbeatConfig,
        active: Vec<String>,
    )
        requires
            self.wf(),
        ensures
            self.after_parent(Some(ToAgent::Assign { task_id, payload })) matches Ok((next, on))
                && on && dispatches(
                RelayModel {
                    pending: self.pending.push(WaitingModel { task: task_id, payload: payload@ }),
                    ..self
                },
                next,
            ),
            self.after_parent(Some(ToAgent::Ping)) == Ok::<(RelayModel, bool), RelayError>(
                (
                    RelayModel {
                        out: self.out.push(
                            RelayActionModel::ToParent { reply: FromAgentModel::Pong },
                        ),
                        ..self
                    },
                    true,
                ),
            ),
            self.after_parent(None) == Ok::<(RelayModel, bool), RelayError>((self, false)),
            self.after_parent(Some(ToAgent::Shutdown)) == Ok::<(RelayModel, bool), RelayError>(
                (self, false),
            ),
            self.after_parent(
                Some(ToAgent::Hello { protocol_version: version, fn_key, heartbeat }),
            ) == Err::<(RelayModel, bool), RelayError>(
                RelayError::UnexpectedFromParent(
                    ToAgent::Hello { protocol_version: version, fn_key, heartbeat },
                ),
            ),
            self.after_parent(Some(ToAgent::Activate { active })) == Err::<
                (RelayModel, bool),
                RelayError,
            >(RelayError::UnexpectedFromParent(ToAgent::Activate { active })),
            self.after_parent(Some(ToAgent::Control { target, action })) == Ok::<
                (RelayModel, bool),
                RelayError,
            >(self.after_control(target@, action)),
    {
        let more = RelayModel {
            pending: self.pending.push(WaitingModel { task: task_id, payload: payload@ }),
            ..self
        };
        more.law_dispatch_sends_what_waited_longest();
    }

    /// Promoting a child that is held back makes it active, reports it idle, tells the
    /// parent the slots that are there now, and lets it take what waits; promoting one
    /// that is active or unknown does nothing.
    pub proof fn law_promoting_a_child(self, child: String, c: int)
        requires
            self.wf(),
            0 <= c <= self.children(),
            c < self.children() ==> self.labels[c] == child@,
            forall|i: int| 0 <= i < c ==> (#[trigger] self.labels[i]) != child@,
        ensures
            self.after_parent(Some(ToAgent::Promote { child })) matches Ok((next, on)) && on && if c
                < self.children() && !self.active[c] {
                let from = self.out.len() as int;
                &&& next.active == self.active.update(c, true)
                &&& next.alive == self.alive
                &&& next.capacity == self.capacity
                &&& goes_on(self.out, next.out)
                &&& from + 1 < next.out.len()
                &&& next.out[from] == (RelayActionModel::Report {
                    event: EventModel::Node { host: child@, state: NodeState::Idle },
                })
                &&& next.out[from + 1] == (RelayActionModel::ToParent {
                    reply: FromAgentModel::Capacity { slots: next.slots() as usize },
                })
                &&& next.pending.len() == 0 || !(next.alive[c] && !next.paused[c]
                    && !next.draining[c] && next.load[c] < next.capacity[c])
            } else {
                next == self
            },
    {
        law_the_first_label_is_found(self.labels, child@, 0);
        let at = position_from(self.labels, child@, 0);
        assert(at == c) by {
            if at < c {
                assert(self.labels[at] != child@);
            } else if c < at {
                assert(self.labels[c] != child@);
            }
        }
        if c < self.children() && !self.active[c] {
            let more = RelayModel { active: self.active.update(c, true), ..self };
            let told = more.reporting(c as usize, NodeState::Idle).advertising();
            told.law_dispatch_sends_what_waited_longest();
            told.law_dispatch_is_work_conserving();
            let next = told.dispatched();
            let from = self.out.len() as int;
            assert forall|k: int| 0 <= k < from + 2 implies next.out[k] == told.out[k] by {
                assert(next.out.take(from + 2)[k] == next.out[k]);
            }
            assert(next.out.take(from) =~= self.out);
            if next.pending.len() > 0 {
                assert(!next.free(c));
            }
        }
    }

    proof fn lemma_pings(self, n: int)
        requires
            self.wf(),
            0 <= n <= self.children(),
        ensures
            ({
                let next = self.pinged_below(n);
                let from = self.out.len() as int;
                &&& goes_on(self.out, next.out)
                &&& forall|c: int|
                    0 <= c < n && #[trigger] self.alive[c] ==> asked_since(
                        next.out,
                        from,
                        RelayActionModel::ToChild {
                            child: c as usize,
                            message: ToAgentModel::Ping,
                        },
                    )
                &&& forall|k: int|
                    from <= k < next.out.len() ==> ((#[trigger] next.out[k]) matches
                        RelayActionModel::ToChild { child, message } && message
                        == ToAgentModel::Ping && child < n && self.alive[child as int])
                &&& forall|k: int, l: int|
                    from <= k < l < next.out.len() ==> #[trigger] next.out[k]
                        != #[trigger] next.out[l]
            }),
        decreases n,
    {
        let from = self.out.len() as int;
        if n == 0 {
            assert(self.out.take(from) =~= self.out);
        } else {
            self.lemma_pings(n - 1);
            let before = self.pinged_below(n - 1);
            let next = self.pinged_below(n);
            let m = before.out.len() as int;
            assert forall|k: int| 0 <= k < m implies next.out[k] == before.out[k] by {}
            assert(next.out.take(from) =~= self.out) by {
                assert forall|k: int| 0 <= k < from implies next.out[k] == self.out[k] by {
                    assert(before.out.take(from)[k] == before.out[k]);
                }
            }
            assert forall|c: int| 0 <= c < n && #[trigger] self.alive[c] implies asked_since(
                next.out,
                from,
                RelayActionModel::ToChild { child: c as usize, message: ToAgentModel::Ping },
            ) by {
                let ping = RelayActionModel::ToChild {
                    child: c as usize,
                    message: ToAgentModel::Ping,
                };
                if c < n - 1 {
                    let k = choose|k: int|
                        from <= k < before.out.len() && #[trigger] before.out[k] == ping;
                    assert(next.out[k] == ping);
                } else {
                    assert(next.out[m] == ping);
                }
            }
            assert forall|k: int| from <= k < next.out.len() implies ((#[trigger] next.out[k])
                matches RelayActionModel::ToChild { child, message } && message
                == ToAgentModel::Ping && child < n && self.alive[child as int]) by {
                if k < m {
                    assert(next.out[k] == before.out[k]);
                }
            }
            assert forall|k: int, l: int| from <= k < l < next.out.len() implies #[trigger] next.out[k]
                != #[trigger] next.out[l] by {
                if l < m {
                    assert(before.out[k] != before.out[l]);
                } else {
                    assert(before.out[k]->ToChild_child < n - 1);
                }
            }
        }
    }

    proof fn lemma_given_up_told(self, n: int, now: u64, timeout: u64)
        requires
            self.wf(),
            0 <= n <= self.children(),
        ensures
            ({
                let next = self.given_up_below(n, now, timeout);
                let from = self.out.len() as int;
                &&& goes_on(self.out, next.out)
                &&& forall|c: int|
                    0 <= c < n && #[trigger] self.alive[c] && now - self.last_activity[c] > timeout
                        ==> asked_since(
                        next.out,
                        from,
                        RelayActionModel::Abandon { child: c as usize },
                    ) && asked_since(
                        next.out,
                        from,
                        RelayActionModel::Report {
                            event: EventModel::Node {
                                host: self.labels[c],
                                state: NodeState::Lost,
                            },
                        },
                    )
                &&& forall|k: int|
                    from <= k < next.out.len() ==> match #[trigger] next.out[k] {
                        RelayActionModel::Abandon { child } => child < n && self.alive[child as int]
                            && now - self.last_activity[child as int] > timeout,
                        RelayActionModel::Report { .. } => true,
                        _ => false,
                    }
            }),
        decreases n,
    {
        let from = self.out.len() as int;
        if n == 0 {
            assert(self.out.take(from) =~= self.out);
        } else {
            self.lemma_given_up_told(n - 1, now, timeout);
            self.lemma_given_up(n - 1, now, timeout);
            let before = self.given_up_below(n - 1, now, timeout);
            let next = self.given_up_below(n, now, timeout);
            let m = before.out.len() as int;
            assert forall|k: int| 0 <= k < m implies next.out[k] == before.out[k] by {}
            assert(next.out.take(from) =~= self.out) by {
                assert forall|k: int| 0 <= k < from implies next.out[k] == self.out[k] by {
                    assert(before.out.take(from)[k] == before.out[k]);
                }
            }
            assert forall|c: int|
                0 <= c < n && #[trigger] self.alive[c] && now - self.last_activity[c]
                    > timeout implies asked_since(
                next.out,
                from,
                RelayActionModel::Abandon { child: c as usize },
            ) && asked_since(
                next.out,
                from,
                RelayActionModel::Report {
                    event: EventModel::Node { host: self.labels[c], state: NodeState::Lost },
                },
            ) by {
                let stop = RelayActionModel::Abandon { child: c as usize };
                let lost = RelayActionModel::Report {
                    event: EventModel::Node { host: self.labels[c], state: NodeState::Lost },
                };
                if c < n - 1 {
                    let k = choose|k: int|
                        from <= k < before.out.len() && #[trigger] before.out[k] == stop;
                    assert(next.out[k] == stop);
                    let j = choose|j: int|
                        from <= j < before.out.len() && #[trigger] before.out[j] == lost;
                    assert(next.out[j] == lost);
                } else {
                    assert(next.out[m] == lost);
                    assert(next.out[m + 1] == stop);
                }
            }
            assert forall|k: int| from <= k < next.out.len() implies match #[trigger] next.out[k] {
                RelayActionModel::Abandon { child } => child < n && self.alive[child as int] && now
                    - self.last_activity[child as int] > timeout,
                RelayActionModel::Report { .. } => true,
                _ => false,
            } by {
                if k < m {
                    assert(next.out[k] == before.out[k]);
                }
            }
        }
    }

    /// What a heartbeat does. Switched off, nothing. Else it probes each child that is up,
    /// once, and no other; then the relay ends if the parent was silent for longer than the
    /// timeout; else each child silent for longer is reported lost and given up, and the
    /// relay goes on as long as any child is up.
    pub proof fn law_what_a_heartbeat_does(
        self,
        last_parent: u64,
        now: u64,
        heartbeat: HeartbeatConfig,
    )
        requires
            self.wf(),
        ensures
            ({
                let (next, on) = self.after_beat(last_parent, now, heartbeat);
                let from = self.out.len() as int;
                if heartbeat.interval == 0 {
                    next == self && on
                } else {
                    &&& goes_on(self.out, next.out)
                    &&& forall|c: int|
                        0 <= c < self.children() && #[trigger] self.alive[c] ==> asked_since(
                            next.out,
                            from,
                            RelayActionModel::ToChild {
                                child: c as usize,
                                message: ToAgentModel::Ping,
                            },
                        )
                    &&& forall|k: int|
                        from <= k < next.out.len() ==> match #[trigger] next.out[k] {
                            RelayActionModel::ToChild { child, message } => child < self.children()
                                && self.alive[child as int] && (message is Ping
                                || message is Assign),
                            RelayActionModel::Abandon { child } => child < self.children()
                                && self.alive[child as int] && now
                                - self.last_activity[child as int] > heartbeat.timeout,
                            RelayActionModel::Report { .. } => true,
                            RelayActionModel::ToParent { .. } => false,
                        }
                    &&& if now - last_parent > heartbeat.timeout {
                        !on && next == (RelayModel { out: next.out, ..self })
                    } else {
                        &&& forall|c: int|
                            0 <= c < self.children() && #[trigger] self.alive[c] && now
                                - self.last_activity[c] > heartbeat.timeout ==> !next.alive[c]
                                && asked_since(
                                next.out,
                                from,
                                RelayActionModel::Abandon { child: c as usize },
                            ) && asked_since(
                                next.out,
                                from,
                                RelayActionModel::Report {
                                    event: EventModel::Node {
                                        host: self.labels[c],
                                        state: NodeState::Lost,
                                    },
                                },
                            )
                        &&& forall|c: int|
                            0 <= c < self.children() && #[trigger] self.alive[c] && now
                                - self.last_activity[c] <= heartbeat.timeout ==> next.alive[c]
                        &&& !on ==> forall|c: int|
                            0 <= c < self.children() ==> !(#[trigger] next.alive[c])
                    }
                }
            }),
    {
        if heartbeat.interval > 0 {
            let n = self.children() as int;
            let from = self.out.len() as int;
            let timeout = heartbeat.timeout;
            self.lemma_pings(n);
            self.lemma_pinged(n);
            let pinged = self.pinged_below(n);
            pinged.lemma_given_up_told(n, now, timeout);
            pinged.lemma_given_up(n, now, timeout);
            let dropped = pinged.given_up_below(n, now, timeout);
            dropped.law_dispatch_sends_what_waited_longest();
            dropped.lemma_dispatched_wf();
            let (next, on) = self.after_beat(last_parent, now, heartbeat);
            let m = pinged.out.len() as int;
            let d = dropped.out.len() as int;
            if now - last_parent <= timeout {
                if pinged.any_stale(now, timeout) {
                    assert(next == dropped.dispatched());
                    assert forall|k: int| 0 <= k < d implies next.out[k] == dropped.out[k] by {
                        assert(next.out.take(d)[k] == next.out[k]);
                    }
                    assert forall|k: int| 0 <= k < m implies next.out[k] == pinged.out[k] by {
                        assert(dropped.out.take(m)[k] == dropped.out[k]);
                    }
                    assert(next.out.take(from) =~= self.out) by {
                        assert forall|k: int| 0 <= k < from implies next.out[k] == self.out[k] by {
                            assert(pinged.out.take(from)[k] == pinged.out[k]);
                        }
                    }
                    assert forall|c: int| 0 <= c < n && #[trigger] self.alive[c] implies asked_since(
                        next.out,
                        from,
                        RelayActionModel::ToChild {
                            child: c as usize,
                            message: ToAgentModel::Ping,
                        },
                    ) by {
                        let ping = RelayActionModel::ToChild {
                            child: c as usize,
                            message: ToAgentModel::Ping,
                        };
                        let k = choose|k: int|
                            from <= k < pinged.out.len() && #[trigger] pinged.out[k] == ping;
                        assert(next.out[k] == ping);
                    }
                    assert forall|k: int| from <= k < next.out.len() implies match #[trigger] next.out[k] {
                        RelayActionModel::ToChild { child, message } => child < self.children()
                            && self.alive[child as int] && (message is Ping || message is Assign),
                        RelayActionModel::Abandon { child } => child < self.children()
                            && self.alive[child as int] && now - self.last_activity[child as int]
                            > timeout,
                        RelayActionModel::Report { .. } => true,
                        RelayActionModel::ToParent { .. } => false,
                    } by {
                        if k < m {
                            assert(next.out[k] == pinged.out[k]);
                        } else if k < d {
                            assert(next.out[k] == dropped.out[k]);
                        } else {
                            assert(handing_out(dropped, next, k));
                            if let RelayActionModel::ToChild { child, message } = next.out[k] {
                                assert(dropped.alive[child as int]);
                            }
                        }
                    }
                    assert forall|c: int|
                        0 <= c < n && #[trigger] self.alive[c] && now - self.last_activity[c]
                            > timeout implies !next.alive[c] && asked_since(
                        next.out,
                        from,
                        RelayActionModel::Abandon { child: c as usize },
                    ) && asked_since(
                        next.out,
                        from,
                        RelayActionModel::Report {
                            event: EventModel::Node {
                                host: self.labels[c],
                                state: NodeState::Lost,
                            },
                        },
                    ) by {
                        assert(pinged.alive[c]);
                        assert(pinged.stale(c, now, timeout));
                        let stop = RelayActionModel::Abandon { child: c as usize };
                        let lost = RelayActionModel::Report {
                            event: EventModel::Node {
                                host: self.labels[c],
                                state: NodeState::Lost,
                            },
                        };
                        let k = choose|k: int|
                            m <= k < dropped.out.len() && #[trigger] dropped.out[k] == stop;
                        assert(next.out[k] == stop);
                        let j = choose|j: int|
                            m <= j < dropped.out.len() && #[trigger] dropped.out[j] == lost;
                        assert(next.out[j] == lost);
                    }
                    assert forall|c: int|
                        0 <= c < n && #[trigger] self.alive[c] && now - self.last_activity[c]
                            <= timeout implies next.alive[c] by {
                        assert(dropped.alive[c]);
                    }
                } else {
                    assert forall|c: int|
                        0 <= c < n && #[trigger] self.alive[c] && now - self.last_activity[c]
                            > timeout implies false by {
                        assert(pinged.stale(c, now, timeout));
                    }
                }
            }
        }
    }

    /// A child that joins later is active and idle with the slots it gave; it is reported
    /// idle, the parent is told the slots that are there now, and it takes what waits. The
    /// others stay as they are.
    pub proof fn law_a_child_joins(self, label: Seq<char>, capacity: usize, now: u64)
        requires
            self.wf(),
            self.children() < usize::MAX,
            total_below(self.capacity, self.children() as int) + capacity <= usize::MAX,
        ensures
            ({
                let next = self.grown(label, capacity, now).reporting(
                    self.children() as usize,
                    NodeState::Idle,
                ).advertising().dispatched();
                let from = self.out.len() as int;
                let c = self.children() as int;
                &&& next.labels == self.labels.push(label)
                &&& next.capacity == self.capacity.push(capacity)
                &&& next.active == self.active.push(true)
                &&& next.alive == self.alive.push(true)
                &&& next.paused == self.paused.push(false)
                &&& next.draining == self.draining.push(false)
                &&& next.last_activity == self.last_activity.push(now)
                &&& goes_on(self.out, next.out)
                &&& from + 1 < next.out.len()
                &&& next.out[from] == (RelayActionModel::Report {
                    event: EventModel::Node { host: label, state: NodeState::Idle },
                })
                &&& next.out[from + 1] == (RelayActionModel::ToParent {
                    reply: FromAgentModel::Capacity { slots: next.slots() as usize },
                })
                &&& next.pending.len() == 0 || next.load[c] >= capacity
            }),
    {
        self.lemma_grown_keeps(label, capacity, now);
        let more = self.grown(label, capacity, now);
        let told = more.reporting(self.children() as usize, NodeState::Idle).advertising();
        told.law_dispatch_sends_what_waited_longest();
        told.law_dispatch_is_work_conserving();
        let next = told.dispatched();
        let from = self.out.len() as int;
        assert forall|k: int| 0 <= k < from + 2 implies next.out[k] == told.out[k] by {
            assert(next.out.take(from + 2)[k] == next.out[k]);
        }
        assert(next.out.take(from) =~= self.out);
        if next.pending.len() > 0 {
            assert(!next.free(self.children() as int));
        }
    }
}

/// Children are described one after the other, each with its own label, id, slots and
/// latency; a latency that was not measured counts as zero.
pub proof fn law_children_are_described_in_order(
    labels: Seq<String>,
    ids: Seq<String>,
    capacity: Seq<usize>,
    latencies: Seq<u64>,
)
    requires
        ids.len() == labels.len(),
        capacity.len() == labels.len(),
    ensures
        ({
            let all = described(labels, ids, capacity, latencies);
            &&& all.len() == labels.len()
            &&& forall|c: int|
                0 <= c < labels.len() ==> {
                    &&& (#[trigger] all[c]).label == labels[c]@
                    &&& all[c].id == ids[c]@
                    &&& all[c].slots == capacity[c]
                    &&& c < latencies.len() ==> all[c].latency_us == latencies[c]
                    &&& c >= latencies.len() ==> all[c].latency_us == 0
                }
        }),
{
}

/// A relay ends when the parent cannot be told or a task does not arrive while it runs,
/// and over nothing else.
pub proof fn law_what_ends_a_relay(
    child: usize,
    message: ToAgent,
    reply: FromAgent,
    event: crate::observability::Event,
)
    ensures
        fatal(RelayAction::ToParent(reply), false),
        fatal(RelayAction::Report(event), false),
        fatal(RelayAction::ToChild { child, message }, false) <==> message is Assign,
        !fatal(RelayAction::Abandon { child }, false),
        !fatal(RelayAction::ToParent(reply), true),
        !fatal(RelayAction::Report(event), true),
        !fatal(RelayAction::ToChild { child, message }, true),
        !fatal(RelayAction::Abandon { child }, true),
{
}

/// Whether the `k`-th of `inputs` is the parent handing down `task` with `payload`.
pub open spec fn handed_down(
    inputs: Seq<RelayInput>,
    k: int,
    task: TaskId,
    payload: Seq<u8>,
) -> bool {
    inputs[k] matches RelayInput::Parent(Some(ToAgent::Assign { task_id, payload: sent }))
        && task_id == task && sent@ == payload
}

/// Whether the parent handed down `task` with `payload` among `inputs`.
pub open spec fn was_handed_down(inputs: Seq<RelayInput>, task: TaskId, payload: Seq<u8>) -> bool {
    exists|k: int| 0 <= k < inputs.len() && #[trigger] handed_down(inputs, k, task, payload)
}

/// In every history of a relay, each task handed to a child carries an input with
/// which the parent handed that very task down, on the first hand-out and on each one
/// after a child is lost; and every task that runs on a child was sent to it. `runs` are
/// the relay at work before the first input and after each, `times` when each came.
pub proof fn law_every_history_keeps_the_inputs(
    runs: Seq<RelayRun>,
    inputs: Seq<RelayInput>,
    times: Seq<u64>,
    n: int,
)
    requires
        runs.len() == inputs.len() + 1,
        times.len() == inputs.len(),
        runs[0].sched@.pending.len() == 0,
        runs[0].sched@.inflight.len() == 0,
        forall|k: int|
            0 <= k < runs[0].sched@.out.len() ==> !((#[trigger] runs[0].sched@.out[k]) is ToChild),
        forall|k: int|
            0 <= k < inputs.len() ==> #[trigger] proceeds(runs[k], inputs[k], times[k], runs[k + 1]),
        0 <= n <= inputs.len(),
    ensures
        carries(
            runs[n].sched@,
            |task: TaskId, payload: Seq<u8>| was_handed_down(inputs.take(n), task, payload),
        ),
    decreases n,
{
    let given = |task: TaskId, payload: Seq<u8>| was_handed_down(inputs.take(n), task, payload);
    if n > 0 {
        law_every_history_keeps_the_inputs(runs, inputs, times, n - 1);
        let earlier = |task: TaskId, payload: Seq<u8>|
            was_handed_down(inputs.take(n - 1), task, payload);
        let before = runs[n - 1].sched@;
        assert forall|task: TaskId, payload: Seq<u8>| #[trigger]
            was_handed_down(inputs.take(n - 1), task, payload) implies was_handed_down(
            inputs.take(n),
            task,
            payload,
        ) by {
            let k = choose|k: int|
                0 <= k < n - 1 && #[trigger] handed_down(inputs.take(n - 1), k, task, payload);
            assert(handed_down(inputs.take(n), k, task, payload));
        }
        assert(carries(before, given));
        assert(proceeds(runs[n - 1], inputs[n - 1], times[n - 1], runs[n - 1 + 1]));
        match inputs[n - 1] {
            RelayInput::Parent(message) => {
                if let Some(ToAgent::Assign { task_id, payload }) = message {
                    assert(handed_down(inputs.take(n), n - 1, task_id, payload@));
                }
                before.law_the_parent_gives_the_inputs(message, given);
            },
            RelayInput::Child(event) => {
                before.law_a_child_leaves_the_inputs(event, times[n - 1], given);
            },
            RelayInput::Joined { label, capacity } => {
                let more = before.grown(label@, capacity, times[n - 1]);
                before.lemma_carries_alike(more, given);
                more.lemma_reporting_carries(before.children() as usize, NodeState::Idle, given);
                let told = more.reporting(before.children() as usize, NodeState::Idle);
                told.lemma_advertising_carries(given);
                told.advertising().lemma_dispatched_carries(given);
            },
            RelayInput::Beat => {
                before.law_a_beat_leaves_the_inputs(
                    runs[n - 1].last_parent,
                    times[n - 1],
                    runs[n - 1].heartbeat,
                    given,
                );
            },
        }
    }
}

/// Whether `input` at `now` takes the relay `before` to `after`, and not to a failure.
pub open spec fn proceeds(before: RelayRun, input: RelayInput, now: u64, after: RelayRun) -> bool {
    before.after(input, now) matches Ok((next, _)) && after.sched@ == next && after.heartbeat
        == before.heartbeat && after.last_parent == (if input is Parent {
        now
    } else {
        before.last_parent
    })
}

impl RelayRun {
    /// What holds of a relay between any two inputs.
    pub open spec fn wf(&self) -> bool {
        self.sched@.wf()
    }

    /// Start work over the children that were announced, telling the parent how many
    /// slots the active ones have.
    pub fn begin(
        labels: Vec<String>,
        capacity: Vec<usize>,
        active: Vec<bool>,
        heartbeat: HeartbeatConfig,
        now: u64,
    ) -> (r: RelayRun)
        requires
            labels@.len() > 0,
            capacity@.len() == labels@.len(),
            active@.len() == labels@.len(),
            total_below(capacity@, capacity@.len() as int) <= usize::MAX,
        ensures
            r.wf(),
            r.heartbeat == heartbeat,
            r.last_parent == now,
            ({
                let fresh = RelayModel {
                    labels: texts(labels@),
                    capacity: capacity@,
                    active: active@,
                    alive: Seq::new(labels@.len(), |c: int| true),
                    paused: Seq::new(labels@.len(), |c: int| false),
                    draining: Seq::new(labels@.len(), |c: int| false),
                    load: Seq::new(labels@.len(), |c: int| 0usize),
                    last_activity: Seq::new(labels@.len(), |c: int| now),
                    pending: Seq::empty(),
                    inflight: Seq::empty(),
                    out: Seq::empty(),
                };
                r.sched@ == fresh.doing(
                    RelayActionModel::ToParent {
                        reply: FromAgentModel::Ready { slots: fresh.slots() as usize },
                    },
                )
            }),
    {
        let mut sched = Relay::new(labels, capacity, active, now);
        let slots: usize = sched.active_capacity();
        sched.ask(RelayAction::ToParent(FromAgent::Ready { slots }));
        RelayRun { sched, heartbeat, last_parent: now }
    }

    /// The capacities add up to a machine integer after `input`, and there is room
    /// for one more child where one joins.
    pub open spec fn admits(&self, input: RelayInput) -> bool {
        match input {
            RelayInput::Parent(_) => true,
            RelayInput::Child(event) => about(event) < self.sched@.children() && self.sched@.fits(
                event,
            ),
            RelayInput::Joined { capacity, .. } => self.sched@.children() < usize::MAX
                && total_below(self.sched@.capacity, self.sched@.children() as int) + capacity
                <= usize::MAX,
            RelayInput::Beat => true,
        }
    }

    /// The schedule after `input` at `now`, and whether the relay goes on.
    pub open spec fn after(&self, input: RelayInput, now: u64) -> Result<
        (RelayModel, bool),
        RelayError,
    > {
        match input {
            RelayInput::Parent(message) => self.sched@.after_parent(message),
            RelayInput::Child(event) => self.sched@.after_child(event, now),
            RelayInput::Joined { label, capacity } => Ok(
                (
                    self.sched@.grown(label@, capacity, now).reporting(
                        self.sched@.children() as usize,
                        NodeState::Idle,
                    ).advertising().dispatched(),
                    true,
                ),
            ),
            RelayInput::Beat => Ok(self.sched@.after_beat(self.last_parent, now, self.heartbeat)),
        }
    }

    /// The schedule as it is left when `input` at `now` ends the relay in failure.
    pub open spec fn failed(&self, input: RelayInput, now: u64) -> RelayModel {
        match input {
            RelayInput::Child(event) => self.sched@.heard(event, now),
            _ => self.sched@,
        }
    }

    /// Fold in what happened at `now`. Returns whether the relay goes on; `false`
    /// means it should shut its children down and end.
    pub fn step(&mut self, input: RelayInput, now: u64) -> (r: Result<bool, RelayError>)
        requires
            old(self).wf(),
            old(self).admits(input),
        ensures
            match old(self).after(input, now) {
                Ok((next, on)) => r == Ok::<bool, RelayError>(on) && final(self).sched@ == next
                    && final(self).wf(),
                Err(e) => r == Err::<bool, RelayError>(e) && final(self).sched@ == old(self).failed(
                    input,
                    now,
                ) && final(self).wf(),
            },
            final(self).heartbeat == old(self).heartbeat,
            final(self).last_parent == (if input is Parent {
                now
            } else {
                old(self).last_parent
            }),
    {
        match input {
            RelayInput::Parent(message) => {
                self.last_parent = now;
                self.on_parent(message)
            },
            RelayInput::Child(event) => self.sched.handle_child(event, now),
            RelayInput::Joined { label, capacity } => {
                self.sched.splice(label, capacity, now);
                Ok(true)
            },
            RelayInput::Beat => Ok(self.beat(now)),
        }
    }

    /// Fold in a message from the parent.
    fn on_parent(&mut self, message: Option<ToAgent>) -> (r: Result<bool, RelayError>)
        requires
            old(self).wf(),
        ensures
            match old(self).sched@.after_parent(message) {
                Ok((next, on)) => r == Ok::<bool, RelayError>(on) && final(self).sched@ == next
                    && final(self).wf(),
                Err(e) => r == Err::<bool, RelayError>(e) && final(self).sched@ == old(self).sched@,
            },
            final(self).heartbeat == old(self).heartbeat,
            final(self).last_parent == old(self).last_parent,
    {
        match message {
            None => Ok(false),
            Some(ToAgent::Shutdown) => Ok(false),
            Some(ToAgent::Assign { task_id, payload }) => {
                self.sched.accept(task_id, payload);
                Ok(true)
            },
            Some(ToAgent::Promote { child }) => {
                match self.sched.promote(child.as_str()) {
                    Some(index) => {
                        self.sched.report(index, NodeState::Idle);
                        self.sched.advertise();
                        self.sched.dispatch();
                    },
                    None => {},
                }
                Ok(true)
            },
            Some(ToAgent::Control { target, action }) => Ok(
                self.sched.control(target.as_str(), action),
            ),
            Some(ToAgent::Ping) => {
                self.sched.ask(RelayAction::ToParent(FromAgent::Pong));
                Ok(true)
            },
            Some(other) => Err(RelayError::UnexpectedFromParent(other)),
        }
    }

    /// Ping the children and give up whoever has been silent too long.
    fn beat(&mut self, now: u64) -> (r: bool)
        requires
            old(self).wf(),
        ensures
            (final(self).sched@, r) == old(self).sched@.after_beat(
                old(self).last_parent,
                now,
                old(self).heartbeat,
            ),
            final(self).wf(),
            final(self).heartbeat == old(self).heartbeat,
            final(self).last_parent == old(self).last_parent,
    {
        if !self.heartbeat.is_enabled() {
            return true;
        }
        let timeout: u64 = self.heartbeat.timeout;
        let n: usize = self.sched.labels.len();
        let ghost start = self.sched@;
        let ghost settings = (self.heartbeat, self.last_parent);
        let mut c: usize = 0;
        while c < n
            invariant
                start.wf(),
                n == start.children(),
                c <= n,
                self.sched@ == start.pinged_below(c as int),
                (self.heartbeat, self.last_parent) == settings,
            decreases n - c,
        {
            proof {
                start.lemma_pinged(c as int);
            }
            if self.sched.alive[c] {
                self.sched.ask(RelayAction::ToChild { child: c, message: ToAgent::Ping });
            }
            c += 1;
        }
        proof {
            start.lemma_pinged(n as int);
        }
        if timed_out(self.last_parent, now, timeout) {
            return false;
        }
        let ghost pinged = self.sched@;
        let mut found = false;
        let mut k: usize = 0;
        while k < n
            invariant
                pinged.wf(),
                n == pinged.children(),
                k <= n,
                (self.heartbeat, self.last_parent) == settings,
                self.sched@ == pinged.given_up_below(k as int, now, timeout),
                found == exists|d: int|
                    0 <= d < k && #[trigger] pinged.stale(d, now, timeout),
            decreases n - k,
        {
            proof {
                pinged.lemma_given_up(k as int, now, timeout);
                assert(self.sched@.alive[k as int] == pinged.alive[k as int]);
            }
            if self.sched.alive[k] && timed_out(self.sched.last_activity[k], now, timeout) {
                proof {
                    assert(pinged.stale(k as int, now, timeout));
                }
                self.sched.on_lost(k);
                self.sched.ask(RelayAction::Abandon { child: k });
                found = true;
            }
            k += 1;
        }
        proof {
            pinged.lemma_given_up(n as int, now, timeout);
        }
        if found {
            proof {
                assert(pinged.any_stale(now, timeout));
                self.sched@.lemma_dispatched_wf();
            }
            self.sched.dispatch();
            self.sched.any_alive_child()
        } else {
            proof {
                lemma_none_stale(pinged, n as int, now, timeout);
            }
            true
        }
    }
}

proof fn lemma_none_stale(m: RelayModel, n: int, now: u64, timeout: u64)
    requires
        0 <= n <= m.children(),
        forall|c: int| 0 <= c < n ==> !(#[trigger] m.stale(c, now, timeout)),
    ensures
        m.given_up_below(n, now, timeout) == m,
    decreases n,
{
    if n > 0 {
        lemma_none_stale(m, n - 1, now, timeout);
        assert(!m.stale(n - 1, now, timeout));
    }
}

impl RelayModel {
    /// Whether no child that could take a task is left without one while tasks wait.
    pub open spec fn saturated(self) -> bool {
        self.pending.len() == 0 || forall|c: int|
            0 <= c < self.children() ==> !(#[trigger] self.free(c))
    }

    proof fn lemma_kill_saturated(self, child: usize)
        requires
            self.wf(),
            self.saturated(),
            child < self.children(),
        ensures
            self.after_kill(child).0.saturated(),
    {
        if self.alive[child as int] {
            let asked = self.doing(
                RelayActionModel::ToChild { child, message: ToAgentModel::Shutdown },
            );
            assert(asked.wf());
            asked.law_a_lost_child_loses_no_task(child, 0);
            let lost = asked.lost(child);
            lost.law_dispatch_is_work_conserving();
            lost.lemma_dispatched_wf();
        }
    }

    proof fn lemma_action_saturated(self, child: usize, action: ControlAction)
        requires
            self.wf(),
            self.saturated(),
            child < self.children(),
        ensures
            self.after_action(child, action).0.saturated(),
    {
        let c = child as int;
        let next = self.after_action(child, action).0;
        match action {
            ControlAction::Pause => {
                assert forall|d: int| 0 <= d < self.children() && next.free(d) implies self.free(
                    d,
                ) by {}
            },
            ControlAction::Resume => {
                let resumed = RelayModel { paused: self.paused.update(c, false), ..self };
                assert(resumed.wf());
                resumed.law_dispatch_is_work_conserving();
                resumed.lemma_dispatched_wf();
                let spread = resumed.dispatched();
                if self.paused[c] {
                    assert forall|d: int| 0 <= d < self.children() implies next.free(d)
                        == spread.free(d) by {}
                }
            },
            ControlAction::Kill { mode: KillMode::Now } => {
                self.lemma_kill_saturated(child);
            },
            ControlAction::Kill { mode: KillMode::AfterCurrent } => {
                if self.load[c] == 0 {
                    self.lemma_kill_saturated(child);
                } else {
                    assert forall|d: int| 0 <= d < self.children() && next.free(d) implies self.free(
                        d,
                    ) by {}
                }
            },
        }
    }

    proof fn lemma_terminal_saturated(self, task: TaskId, message: FromAgentModel)
        requires
            self.wf(),
            self.saturated(),
        ensures
            self.after_terminal(task, message).0.saturated(),
    {
        match owner_of(self.inflight, task) {
            None => {},
            Some(child) => {
                self.lemma_freed_wf(task);
                let freed = self.released(task).doing(RelayActionModel::ToParent { reply: message });
                assert(freed.wf());
                freed.law_dispatch_is_work_conserving();
                freed.lemma_dispatched_wf();
                let next = freed.dispatched();
                assert(next.saturated());
                if next.load[child as int] == 0 {
                    if next.draining[child as int] {
                        next.lemma_kill_saturated(child);
                    } else {
                        let told = next.reporting(child, NodeState::Idle);
                        assert forall|d: int| 0 <= d < next.children() implies told.free(d)
                            == next.free(d) by {}
                    }
                }
            },
        }
    }

    proof fn lemma_same_but_out(self, other: RelayModel)
        requires
            self.saturated(),
            other == (RelayModel {
                out: other.out,
                last_activity: other.last_activity,
                ..self
            }),
        ensures
            other.saturated(),
    {
        assert forall|d: int| 0 <= d < self.children() implies other.free(d) == self.free(d) by {}
    }
}

impl RelayRun {
    /// Work never waits for a free child: if no child that could take a task was
    /// left without one while tasks waited, none is after any input.
    pub proof fn law_no_free_child_idles_while_work_waits(&self, input: RelayInput, now: u64)
        requires
            self.wf(),
            self.sched@.saturated(),
            self.admits(input),
        ensures
            self.after(input, now) matches Ok((next, _)) ==> next.saturated(),
    {
        let m = self.sched@;
        match input {
            RelayInput::Joined { label, capacity } => {
                let grown = m.grown(label@, capacity, now);
                m.lemma_grown_keeps(label@, capacity, now);
                let child = m.children() as usize;
                let told = grown.reporting(child, NodeState::Idle);
                assert(told.wf());
                let shown = told.advertising();
                assert(shown.wf());
                shown.law_dispatch_is_work_conserving();
                shown.lemma_dispatched_wf();
            },
            RelayInput::Beat => {
                if self.heartbeat.enabled() {
                    let n = m.children() as int;
                    m.lemma_pinged(n);
                    let pinged = m.pinged_below(n);
                    m.lemma_same_but_out(pinged);
                    pinged.lemma_given_up(n, now, self.heartbeat.timeout);
                    let dropped = pinged.given_up_below(n, now, self.heartbeat.timeout);
                    dropped.law_dispatch_is_work_conserving();
                    dropped.lemma_dispatched_wf();
                }
            },
            RelayInput::Parent(message) => match message {
                Some(ToAgent::Assign { task_id, payload }) => {
                    let longer = RelayModel {
                        pending: m.pending.push(WaitingModel { task: task_id, payload: payload@ }),
                        ..m
                    };
                    assert(longer.wf());
                    longer.law_dispatch_is_work_conserving();
                    longer.lemma_dispatched_wf();
                },
                Some(ToAgent::Promote { child }) => {
                    let at = position_from(m.labels, child@, 0);
                    if at < m.children() && !m.active[at] {
                        lemma_position_from(m.labels, child@, 0);
                        let grown = RelayModel { active: m.active.update(at, true), ..m };
                        assert(grown.wf());
                        let shown = grown.reporting(at as usize, NodeState::Idle).advertising();
                        assert(shown.wf());
                        shown.law_dispatch_is_work_conserving();
                        shown.lemma_dispatched_wf();
                    }
                },
                Some(ToAgent::Control { target, action }) => {
                    let (head, rest) = split_head(target@);
                    let at = position_from(m.labels, head, 0);
                    lemma_position_from(m.labels, head, 0);
                    if at < m.children() && m.alive[at] {
                        match rest {
                            Some(below) => {
                                m.lemma_same_but_out(m.after_control(target@, action).0);
                            },
                            None => {
                                m.lemma_action_saturated(at as usize, action);
                            },
                        }
                    }
                },
                Some(ToAgent::Ping) => {
                    m.lemma_same_but_out(
                        m.doing(RelayActionModel::ToParent { reply: FromAgentModel::Pong }),
                    );
                },
                _ => {},
            },
            RelayInput::Child(event) => match event {
                AgentEvent::Lost(child) => {
                    m.law_a_lost_child_loses_no_task(child, 0);
                    let lost = m.lost(child);
                    lost.law_dispatch_is_work_conserving();
                    lost.lemma_dispatched_wf();
                },
                AgentEvent::Message(child, message) => {
                    let heard = RelayModel {
                        last_activity: m.last_activity.update(child as int, now),
                        ..m
                    };
                    assert(heard.wf());
                    m.lemma_same_but_out(heard);
                    match message {
                        FromAgent::Completed { task_id, output, via } => {
                            heard.lemma_terminal_saturated(
                                task_id,
                                FromAgentModel::Completed {
                                    task_id,
                                    output: output@,
                                    via: m.full_via(task_id, via@),
                                },
                            );
                        },
                        FromAgent::Failed { task_id, error, via } => {
                            heard.lemma_terminal_saturated(
                                task_id,
                                FromAgentModel::Failed {
                                    task_id,
                                    error: error@,
                                    via: m.full_via(task_id, via@),
                                },
                            );
                        },
                        FromAgent::Capacity { slots } => {
                            let grown = RelayModel {
                                capacity: m.capacity.update(child as int, slots),
                                ..heard
                            };
                            assert(grown.wf());
                            let shown = grown.advertising();
                            assert(shown.wf());
                            shown.law_dispatch_is_work_conserving();
                            shown.lemma_dispatched_wf();
                        },
                        FromAgent::Started { task_id } => {
                            heard.lemma_same_but_out(
                                heard.doing(
                                    RelayActionModel::ToParent {
                                        reply: FromAgentModel::Started { task_id },
                                    },
                                ),
                            );
                        },
                        FromAgent::Observe(observed) => {
                            heard.lemma_same_but_out(
                                heard.doing(
                                    RelayActionModel::ToParent {
                                        reply: FromAgentModel::Observe {
                                            event: observed@.prefixed(m.labels[child as int]),
                                        },
                                    },
                                ),
                            );
                        },
                        _ => {},
                    }
                },
            },
        }
    }
}

proof fn lemma_position_from(labels: Seq<Seq<char>>, name: Seq<char>, from: int)
    requires
        0 <= from <= labels.len(),
    ensures
        from <= position_from(labels, name, from) <= labels.len(),
    decreases labels.len() - from,
{
    if from < labels.len() && labels[from] != name {
        lemma_position_from(labels, name, from + 1);
    }
}

/// What happens to a relay: a message of the parent, an event of a child, a child that joins
/// and the heartbeat each do what is said of them.
pub proof fn law_what_happens_to_a_relay(
    run: RelayRun,
    message: Option<ToAgent>,
    event: AgentEvent,
    label: String,
    capacity: usize,
    now: u64,
)
    ensures
        run.after(RelayInput::Parent(message), now) == run.sched@.after_parent(message),
        run.after(RelayInput::Child(event), now) == run.sched@.after_child(event, now),
        run.after(RelayInput::Joined { label, capacity }, now) == Ok::<
            (RelayModel, bool),
            RelayError,
        >(
            (
                run.sched@.grown(label@, capacity, now).reporting(
                    run.sched@.labels.len() as usize,
                    NodeState::Idle,
                ).advertising().dispatched(),
                true,
            ),
        ),
        run.after(RelayInput::Beat, now) == Ok::<(RelayModel, bool), RelayError>(
            run.sched@.after_beat(run.last_parent, now, run.heartbeat),
        ),
{
}

} // verus!
