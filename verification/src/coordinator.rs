//! The coordinator side of a run: greeting the agents, then driving the schedule
//! until every task has its outcome.
//!
//! Nothing here does any input or output. The handshake says what to send next and
//! is handed the reply; the run is handed what happened and leaves what is to be
//! sent and reported in its job's outbox.
use vstd::prelude::*;
use vstd::string::*;

use crate::heartbeat::HeartbeatConfig;
use crate::job::{
    about, bytes, handed_since, right_assignment, right_message, rows, ActionModel, AgentEvent, Job,
    JobError, JobModel, Outcome,
};
use crate::observability::EventModel;
use crate::paths::{
    chosen, choose_active, gaps_below, redundancy_gaps, reports, Metric, RelayReport, ReportModel,
};
use crate::protocol::{ads, ChildAd, FromAgent, ToAgent, ToAgentModel, PROTOCOL_VERSION};
use crate::text::{copy_all, holds, join, joined, texts};

verus! {

/// How a parent decides which of a relay's discovered children to activate now.
#[derive(Debug, Clone, Copy, PartialEq, Eq, Structural)]
pub enum ActivationPolicy {
    /// The coordinator's global choice: a machine reached through several relays
    /// runs on its best path, and the other relays hold it as a standby.
    DedupById,
    /// A relay over its own children, with no global view, activates them all.
    ApproveAll,
}

/// An agent's first handshake reply: a leaf readies with its slot count, a relay
/// first describes the children it built so the parent can choose which to run.
#[derive(Debug)]
pub enum FirstReport {
    /// A leaf with this many slots.
    Leaf(usize),
    /// A relay with these children.
    Relay(Vec<ChildAd>),
}

/// What a handshake was waiting for.
#[derive(Debug, Clone, Copy, PartialEq, Eq, Structural)]
pub enum Expected {
    /// The first reply.
    ReadyOrDiscovered,
    /// A relay's reply to being told what to activate.
    ReadyAfterActivate,
}

impl Expected {
    /// What was expected, in words.
    pub open spec fn spec_text(self) -> Seq<char> {
        match self {
            Expected::ReadyOrDiscovered => "Ready or Discovered"@,
            Expected::ReadyAfterActivate => "Ready after Activate"@,
        }
    }

    /// What was expected, in words.
    pub fn text(self) -> (r: &'static str)
        ensures
            r@ == self.spec_text(),
            self == Expected::ReadyOrDiscovered ==> r@ == "Ready or Discovered"@,
            self == Expected::ReadyAfterActivate ==> r@ == "Ready after Activate"@,
    {
        match self {
            Expected::ReadyOrDiscovered => "Ready or Discovered",
            Expected::ReadyAfterActivate => "Ready after Activate",
        }
    }
}

/// Why a handshake failed.
#[derive(Debug)]
pub enum HandshakeError {
    /// The agent sent something else, or ended the conversation.
    Unexpected {
        /// What was waited for.
        want: Expected,
        /// What came instead.
        got: Option<FromAgent>,
    },
    /// A redundant path was required for every machine and these have none.
    NotRedundant {
        /// The machines reachable through only one relay.
        gaps: Vec<String>,
    },
}

/// The message of a run refused for want of redundancy.
pub open spec fn gaps_message(gaps: Seq<Seq<char>>) -> Seq<char> {
    "rayonet: require_redundancy: compute reachable through only one relay: "@ + joined(
        gaps,
        ", "@,
    )
}

/// The message of a run refused for want of redundancy.
pub fn redundancy_message(gaps: &Vec<String>) -> (r: String)
    ensures
        r@ == gaps_message(texts(gaps@)),
        r@ == "rayonet: require_redundancy: compute reachable through only one relay: "@ + joined(
            texts(gaps@),
            ", "@,
        ),
{
    let mut r = "rayonet: require_redundancy: compute reachable through only one relay: ".to_owned();
    let list = join(gaps, ", ");
    r.append(list.as_str());
    r
}

/// The relays among the first `n` agents, in order.
pub open spec fn relays_below(first: Seq<FirstReport>, n: int) -> Seq<usize>
    decreases n,
{
    if n <= 0 {
        Seq::empty()
    } else if first[n - 1] is Relay {
        relays_below(first, n - 1).push((n - 1) as usize)
    } else {
        relays_below(first, n - 1)
    }
}

/// The measured latency to agent `a`; zero where none was measured.
pub open spec fn latency_to(latencies: Seq<u64>, a: int) -> u64 {
    if a < latencies.len() {
        latencies[a]
    } else {
        0
    }
}

/// The children agent `a` reported.
pub open spec fn children_of(first: Seq<FirstReport>, a: int) -> Seq<ChildAd> {
    match first[a] {
        FirstReport::Leaf(_) => Seq::empty(),
        FirstReport::Relay(children) => children@,
    }
}

/// What relay `a` offers.
pub open spec fn offer_of(
    first: Seq<FirstReport>,
    labels: Seq<String>,
    latencies: Seq<u64>,
    a: int,
) -> ReportModel {
    ReportModel {
        label: labels[a]@,
        latency_us: latency_to(latencies, a),
        children: ads(children_of(first, a)),
    }
}

/// What each relay among the agents offers, in order.
pub open spec fn offers(
    first: Seq<FirstReport>,
    labels: Seq<String>,
    latencies: Seq<u64>,
) -> Seq<ReportModel> {
    let relays = relays_below(first, first.len() as int);
    Seq::new(relays.len(), |k: int| offer_of(first, labels, latencies, relays[k] as int))
}

/// The labels of each child in turn.
pub open spec fn ad_labels(children: Seq<ChildAd>) -> Seq<Seq<char>> {
    Seq::new(children.len(), |j: int| children[j]@.label)
}

/// The labels agent `a` should activate: none for a leaf; for a relay all of its
/// children, or those it is the best path to.
pub open spec fn active_for(
    first: Seq<FirstReport>,
    labels: Seq<String>,
    latencies: Seq<u64>,
    policy: ActivationPolicy,
    a: int,
) -> Seq<Seq<char>> {
    match first[a] {
        FirstReport::Leaf(_) => Seq::empty(),
        FirstReport::Relay(children) => match policy {
            ActivationPolicy::ApproveAll => ad_labels(children@),
            ActivationPolicy::DedupById => chosen(
                offers(first, labels, latencies),
                relays_below(first, a).len() as int,
            ),
        },
    }
}

/// The first `n` children whose label is not in `active`.
pub open spec fn held_back(children: Seq<ChildAd>, active: Seq<Seq<char>>, n: int) -> Seq<ChildAd>
    decreases n,
{
    if n <= 0 {
        Seq::empty()
    } else if active.contains(children[n - 1]@.label) {
        held_back(children, active, n - 1)
    } else {
        held_back(children, active, n - 1).push(children[n - 1])
    }
}

proof fn lemma_relays_prefix(first: Seq<FirstReport>, a: int, n: int)
    requires
        0 <= a < n <= first.len() <= usize::MAX,
        first[a] is Relay,
    ensures
        relays_below(first, a).len() < relays_below(first, n).len(),
        relays_below(first, n)[relays_below(first, a).len() as int] == a,
    decreases n,
{
    if a < n - 1 {
        lemma_relays_prefix(first, a, n - 1);
    }
}

/// The labels of `children` in order.
fn labels_of(children: &Vec<ChildAd>) -> (r: Vec<String>)
    ensures
        texts(r@) == ad_labels(children@),
{
    let mut r: Vec<String> = Vec::new();
    let mut j: usize = 0;
    while j < children.len()
        invariant
            j <= children@.len(),
            r@.len() == j,
            forall|k: int| 0 <= k < j ==> (#[trigger] r@[k])@ == children@[k]@.label,
        decreases children@.len() - j,
    {
        r.push(children[j].label().to_owned());
        j += 1;
    }
    proof {
        assert(texts(r@) =~= ad_labels(children@));
    }
    r
}

/// The relays among the agents, each with what it offers.
fn relay_reports(first: &Vec<FirstReport>, labels: &Vec<String>, latencies: &Vec<u64>) -> (r: Vec<
    RelayReport,
>)
    requires
        labels@.len() == first@.len(),
    ensures
        reports(r@) == offers(first@, labels@, latencies@),
{
    let mut r: Vec<RelayReport> = Vec::new();
    let mut a: usize = 0;
    while a < first.len()
        invariant
            labels@.len() == first@.len(),
            a <= first@.len(),
            r@.len() == relays_below(first@, a as int).len(),
            forall|k: int|
                0 <= k < r@.len() ==> (#[trigger] r@[k])@ == offer_of(
                    first@,
                    labels@,
                    latencies@,
                    relays_below(first@, a as int)[k] as int,
                ),
        decreases first@.len() - a,
    {
        match &first[a] {
            FirstReport::Leaf(_) => {},
            FirstReport::Relay(children) => {
                let latency: u64 = if a < latencies.len() {
                    latencies[a]
                } else {
                    0
                };
                let mut copies: Vec<ChildAd> = Vec::new();
                let mut j: usize = 0;
                while j < children.len()
                    invariant
                        j <= children@.len(),
                        copies@ == children@.take(j as int),
                    decreases children@.len() - j,
                {
                    copies.push(children[j].copy());
                    proof {
                        assert(children@.take(j as int + 1) =~= children@.take(j as int).push(
                            children@[j as int],
                        ));
                    }
                    j += 1;
                }
                proof {
                    assert(children@.take(j as int) =~= children@);
                }
                r.push(RelayReport::new(labels[a].clone(), latency, copies));
            },
        }
        a += 1;
    }
    proof {
        assert(reports(r@) =~= offers(first@, labels@, latencies@));
    }
    r
}

/// The labels each agent should activate now, by `policy`, parallel to `first`.
fn active_labels(
    first: &Vec<FirstReport>,
    labels: &Vec<String>,
    latencies: &Vec<u64>,
    policy: ActivationPolicy,
) -> (r: Vec<Vec<String>>)
    requires
        labels@.len() == first@.len(),
    ensures
        r@.len() == first@.len(),
        forall|a: int|
            0 <= a < r@.len() ==> texts((#[trigger] r@[a])@) == active_for(
                first@,
                labels@,
                latencies@,
                policy,
                a,
            ),
{
    match policy {
        ActivationPolicy::ApproveAll => {
            let mut r: Vec<Vec<String>> = Vec::new();
            let mut a: usize = 0;
            while a < first.len()
                invariant
                    policy == ActivationPolicy::ApproveAll,
                    a <= first@.len(),
                    r@.len() == a,
                    forall|b: int|
                        0 <= b < a ==> texts((#[trigger] r@[b])@) == active_for(
                            first@,
                            labels@,
                            latencies@,
                            policy,
                            b,
                        ),
                decreases first@.len() - a,
            {
                match &first[a] {
                    FirstReport::Leaf(_) => {
                        let none: Vec<String> = Vec::new();
                        assert(texts(none@) =~= Seq::empty());
                        r.push(none);
                    },
                    FirstReport::Relay(children) => {
                        r.push(labels_of(children));
                    },
                }
                a += 1;
            }
            r
        },
        ActivationPolicy::DedupById => dedup_active(first, labels, latencies),
    }
}

/// Per-agent active labels with redundant paths deduplicated by the
/// shortest-latency path through the sharing relays.
fn dedup_active(first: &Vec<FirstReport>, labels: &Vec<String>, latencies: &Vec<u64>) -> (r: Vec<
    Vec<String>,
>)
    requires
        labels@.len() == first@.len(),
    ensures
        r@.len() == first@.len(),
        forall|a: int|
            0 <= a < r@.len() ==> texts((#[trigger] r@[a])@) == active_for(
                first@,
                labels@,
                latencies@,
                ActivationPolicy::DedupById,
                a,
            ),
{
    let relays = relay_reports(first, labels, latencies);
    let picked = choose_active(&relays, Metric::ShortestLatency);
    let total: usize = first.len();
    let ghost all = offers(first@, labels@, latencies@);
    let mut r: Vec<Vec<String>> = Vec::new();
    let mut slot: usize = 0;
    let mut a: usize = 0;
    while a < total
        invariant
            total == first@.len(),
            all == offers(first@, labels@, latencies@),
            reports(relays@) == all,
            picked@.len() == relays@.len(),
            forall|i: int|
                0 <= i < picked@.len() ==> texts((#[trigger] picked@[i])@) == chosen(all, i),
            a <= total,
            r@.len() == a,
            slot == relays_below(first@, a as int).len(),
            forall|b: int|
                0 <= b < a ==> texts((#[trigger] r@[b])@) == active_for(
                    first@,
                    labels@,
                    latencies@,
                    ActivationPolicy::DedupById,
                    b,
                ),
        decreases total - a,
    {
        match &first[a] {
            FirstReport::Leaf(_) => {
                let none: Vec<String> = Vec::new();
                assert(texts(none@) =~= Seq::empty());
                r.push(none);
            },
            FirstReport::Relay(_) => {
                proof {
                    lemma_relays_prefix(first@, a as int, total as int);
                    assert(all.len() == relays@.len());
                }
                r.push(copy_all(&picked[slot]));
                slot += 1;
            },
        }
        a += 1;
    }
    r
}

/// The handshake with every agent: each is greeted and gives its first report;
/// then each relay is told which children to activate and readies.
#[derive(Debug)]
pub struct Handshake {
    /// Each agent's label.
    pub labels: Vec<String>,
    /// The measured latencies to the agents, as far as they are known.
    pub latencies: Vec<u64>,
    /// The key of the function the run maps.
    pub fn_key: String,
    /// The liveness settings to announce.
    pub heartbeat: HeartbeatConfig,
    /// Whether to refuse unless every machine has a redundant path.
    pub require_redundancy: bool,
    /// How active children are chosen.
    pub policy: ActivationPolicy,
    /// The first reports so far, in agent order.
    pub first: Vec<FirstReport>,
    /// What each agent is to activate, once all have reported.
    pub actives: Vec<Vec<String>>,
    /// The slots of the agents that are through, in agent order.
    pub capacity: Vec<usize>,
    /// The children each agent that is through holds back.
    pub standbys: Vec<Vec<ChildAd>>,
}

/// What a handshake does next.
#[derive(Debug)]
pub enum HandshakeStep {
    /// Send the message to the agent and hand over its reply.
    Ask {
        /// The agent.
        agent: usize,
        /// The message.
        message: ToAgent,
    },
    /// Every agent is through.
    Done,
}

/// The children agent `a` holds back.
pub open spec fn standby_of(
    first: Seq<FirstReport>,
    labels: Seq<String>,
    latencies: Seq<u64>,
    policy: ActivationPolicy,
    a: int,
) -> Seq<ChildAd> {
    let children = children_of(first, a);
    held_back(
        children,
        active_for(first, labels, latencies, policy, a),
        children.len() as int,
    )
}

/// The next relay at or after agent `a`, or the number of agents.
pub open spec fn next_relay(first: Seq<FirstReport>, a: int) -> int
    decreases first.len() - a,
{
    if a < 0 || a >= first.len() || first[a] is Relay {
        a
    } else {
        next_relay(first, a + 1)
    }
}

/// Whether two handshakes are over the same agents with the same settings.
pub open spec fn same_settings(a: Handshake, b: Handshake) -> bool {
    &&& a.labels == b.labels
    &&& a.latencies == b.latencies
    &&& a.fn_key == b.fn_key
    &&& a.heartbeat == b.heartbeat
    &&& a.require_redundancy == b.require_redundancy
    &&& a.policy == b.policy
}

impl Handshake {
    /// How many agents there are.
    pub open spec fn agents(&self) -> nat {
        self.labels@.len()
    }

    /// Whether some agent has not been greeted yet.
    pub open spec fn greeting(&self) -> bool {
        self.first@.len() < self.agents()
    }

    /// Whether every agent is through.
    pub open spec fn done(&self) -> bool {
        !self.greeting() && self.capacity@.len() == self.agents()
    }

    /// What agent `a` is to activate.
    pub open spec fn active(&self, a: int) -> Seq<Seq<char>> {
        active_for(self.first@, self.labels@, self.latencies@, self.policy, a)
    }

    /// The machines without a redundant path.
    pub open spec fn gaps(&self) -> Seq<Seq<char>> {
        let all = offers(self.first@, self.labels@, self.latencies@);
        gaps_below(all, all.len() as int)
    }

    /// The agents report in order; once all have, those that are through have the
    /// capacity they reported and hold back what they are not to activate, and the
    /// next one is a relay.
    pub open spec fn wf(&self) -> bool {
        &&& self.first@.len() <= self.agents()
        &&& self.capacity@.len() == self.standbys@.len()
        &&& self.greeting() ==> self.capacity@.len() == 0
        &&& !self.greeting() ==> {
            &&& self.actives@.len() == self.agents()
            &&& forall|a: int|
                0 <= a < self.agents() ==> texts((#[trigger] self.actives@[a])@) == self.active(a)
            &&& self.capacity@.len() <= self.agents()
            &&& self.capacity@.len() < self.agents()
                ==> self.first@[self.capacity@.len() as int] is Relay
            &&& forall|a: int|
                0 <= a < self.capacity@.len() ==> (self.first@[a] matches FirstReport::Leaf(slots)
                    ==> #[trigger] self.capacity@[a] == slots)
            &&& forall|a: int|
                0 <= a < self.capacity@.len() ==> (#[trigger] self.standbys@[a])@ == standby_of(
                    self.first@,
                    self.labels@,
                    self.latencies@,
                    self.policy,
                    a,
                )
            &&& self.require_redundancy && self.agents() > 0 ==> self.gaps().len() == 0
        }
    }

    /// A handshake with these agents, none greeted yet.
    pub fn new(
        labels: Vec<String>,
        latencies: Vec<u64>,
        fn_key: String,
        heartbeat: HeartbeatConfig,
        require_redundancy: bool,
        policy: ActivationPolicy,
    ) -> (r: Handshake)
        ensures
            r.wf(),
            r.labels == labels,
            r.latencies == latencies,
            r.fn_key == fn_key,
            r.heartbeat == heartbeat,
            r.require_redundancy == require_redundancy,
            r.policy == policy,
            r.first@.len() == 0,
            r.capacity@.len() == 0,
    {
        Handshake {
            labels,
            latencies,
            fn_key,
            heartbeat,
            require_redundancy,
            policy,
            first: Vec::new(),
            actives: Vec::new(),
            capacity: Vec::new(),
            standbys: Vec::new(),
        }
    }

    /// The handshake with one node that joins a run already in progress. It has no
    /// others to be weighed against, so a relay activates all of its children.
    pub fn joining(label: String, fn_key: String, heartbeat: HeartbeatConfig) -> (r: Handshake)
        ensures
            r.wf(),
            r.labels@ == seq![label],
            r.latencies@.len() == 0,
            r.fn_key == fn_key,
            r.heartbeat == heartbeat,
            !r.require_redundancy,
            r.policy == ActivationPolicy::ApproveAll,
            r.first@.len() == 0,
            r.capacity@.len() == 0,
    {
        let mut labels: Vec<String> = Vec::new();
        labels.push(label);
        let r = Handshake::new(
            labels,
            Vec::new(),
            fn_key,
            heartbeat,
            false,
            ActivationPolicy::ApproveAll,
        );
        proof {
            assert(r.labels@ =~= seq![label]);
        }
        r
    }

    /// What to do next: greet the next agent, tell the next relay what to
    /// activate, or nothing more.
    pub fn next(&self) -> (r: HandshakeStep)
        requires
            self.wf(),
        ensures
            match r {
                HandshakeStep::Ask { agent, message } => {
                    &&& !self.done()
                    &&& agent < self.agents()
                    &&& if self.greeting() {
                        &&& agent == self.first@.len()
                        &&& message@ == (ToAgentModel::Hello {
                            protocol_version: PROTOCOL_VERSION,
                            fn_key: self.fn_key@,
                            heartbeat: self.heartbeat,
                        })
                    } else {
                        &&& agent == self.capacity@.len()
                        &&& message@ == (ToAgentModel::Activate { active: self.active(agent as int) })
                    }
                },
                HandshakeStep::Done => self.done(),
            },
    {
        if self.first.len() < self.labels.len() {
            HandshakeStep::Ask {
                agent: self.first.len(),
                message: ToAgent::Hello {
                    protocol_version: PROTOCOL_VERSION,
                    fn_key: self.fn_key.clone(),
                    heartbeat: self.heartbeat,
                },
            }
        } else if self.capacity.len() < self.labels.len() {
            let agent: usize = self.capacity.len();
            let active = copy_all(&self.actives[agent]);
            HandshakeStep::Ask { agent, message: ToAgent::Activate { active } }
        } else {
            HandshakeStep::Done
        }
    }

    /// What the next reply leads to while agents are being greeted.
    pub open spec fn first_of(reply: Option<FromAgent>) -> Result<FirstReport, HandshakeError> {
        match reply {
            Some(FromAgent::Ready { slots }) => Ok(FirstReport::Leaf(slots)),
            Some(FromAgent::Discovered { children }) => Ok(FirstReport::Relay(children)),
            other => Err(
                HandshakeError::Unexpected { want: Expected::ReadyOrDiscovered, got: other },
            ),
        }
    }

    /// What `reply` makes of the handshake `before`: the result `r` and the handshake
    /// `after`.
    pub open spec fn replied(
        before: Handshake,
        reply: Option<FromAgent>,
        r: Result<(), HandshakeError>,
        after: Handshake,
    ) -> bool {
        &&& same_settings(before, after)
        &&& before.greeting() ==> match Self::first_of(reply) {
            Err(e) => r == Err::<(), HandshakeError>(e) && after == before,
            Ok(report) => {
                &&& after.first@ == before.first@.push(report)
                &&& if after.greeting() {
                    r is Ok && after.wf()
                } else if before.require_redundancy && after.gaps().len() > 0 {
                    &&& r matches Err(HandshakeError::NotRedundant { gaps }) && texts(gaps@)
                        == after.gaps()
                    &&& after.actives == before.actives
                    &&& after.capacity == before.capacity
                    &&& after.standbys == before.standbys
                } else {
                    &&& r is Ok
                    &&& after.wf()
                    &&& after.capacity@.len() == next_relay(after.first@, 0)
                }
            },
        }
        &&& !before.greeting() ==> match reply {
            Some(FromAgent::Ready { slots }) => {
                &&& r is Ok
                &&& after.wf()
                &&& after.first@ == before.first@
                &&& after.capacity@.len() == next_relay(
                    before.first@,
                    before.capacity@.len() as int + 1,
                )
                &&& after.capacity@.take(before.capacity@.len() as int) == before.capacity@
                &&& after.capacity@[before.capacity@.len() as int] == slots
            },
            other => {
                &&& r == Err::<(), HandshakeError>(
                    HandshakeError::Unexpected { want: Expected::ReadyAfterActivate, got: other },
                )
                &&& after == before
            },
        }
    }

    /// Fold in the reply to the last question. The first reply of an agent must be
    /// `Ready` or `Discovered`, and a relay told what to activate must answer
    /// `Ready`; anything else, the end of the conversation included, fails the
    /// handshake. Once every agent has reported, the handshake also fails if
    /// redundancy is required and some machine has only one path.
    pub fn on_reply(&mut self, reply: Option<FromAgent>) -> (r: Result<(), HandshakeError>)
        requires
            old(self).wf(),
            !old(self).done(),
        ensures
            Self::replied(*old(self), reply, r, *final(self)),
    {
        if self.first.len() < self.labels.len() {
            match reply {
                Some(FromAgent::Ready { slots }) => {
                    self.first.push(FirstReport::Leaf(slots));
                },
                Some(FromAgent::Discovered { children }) => {
                    self.first.push(FirstReport::Relay(children));
                },
                other => {
                    return Err(
                        HandshakeError::Unexpected { want: Expected::ReadyOrDiscovered, got: other },
                    );
                },
            }
            if self.first.len() < self.labels.len() {
                return Ok(());
            }
            if self.require_redundancy {
                let relays = relay_reports(&self.first, &self.labels, &self.latencies);
                let gaps = redundancy_gaps(&relays);
                proof {
                    assert(reports(relays@).len() == relays@.len());
                    assert(texts(gaps@).len() == gaps@.len());
                }
                if gaps.len() > 0 {
                    return Err(HandshakeError::NotRedundant { gaps });
                }
            }
            self.actives = active_labels(&self.first, &self.labels, &self.latencies, self.policy);
            self.pass_leaves();
            Ok(())
        } else {
            match reply {
                Some(FromAgent::Ready { slots }) => {
                    let agent: usize = self.capacity.len();
                    let standby = self.standby(agent);
                    let ghost before = *self;
                    self.capacity.push(slots);
                    self.standbys.push(standby);
                    let ghost pushed = self.capacity@;
                    self.pass_leaves();
                    proof {
                        assert(pushed[agent as int] == slots);
                        assert forall|a: int| 0 <= a < agent implies self.capacity@[a]
                            == before.capacity@[a] by {
                            assert(pushed[a] == before.capacity@[a]);
                        }
                        assert(self.capacity@.take(agent as int) =~= before.capacity@);
                        assert(self.capacity@[agent as int] == slots);
                    }
                    Ok(())
                },
                other => Err(
                    HandshakeError::Unexpected { want: Expected::ReadyAfterActivate, got: other },
                ),
            }
        }
    }

    /// The children of relay `agent` that it is not told to activate.
    fn standby(&self, agent: usize) -> (r: Vec<ChildAd>)
        requires
            self.wf(),
            !self.greeting(),
            agent < self.agents(),
            self.first@[agent as int] is Relay,
        ensures
            r@ == standby_of(self.first@, self.labels@, self.latencies@, self.policy, agent as int),
    {
        let mut r: Vec<ChildAd> = Vec::new();
        match &self.first[agent] {
            FirstReport::Leaf(_) => r,
            FirstReport::Relay(children) => {
                let mut j: usize = 0;
                while j < children.len()
                    invariant
                        j <= children@.len(),
                        agent < self.actives@.len(),
                        texts(self.actives@[agent as int]@) == self.active(agent as int),
                        r@ == held_back(children@, self.active(agent as int), j as int),
                    decreases children@.len() - j,
                {
                    if !holds(&self.actives[agent], children[j].label()) {
                        r.push(children[j].copy());
                    }
                    j += 1;
                }
                r
            },
        }
    }

    /// Leaves are through as soon as they have reported.
    fn pass_leaves(&mut self)
        requires
            !old(self).greeting(),
            old(self).first@.len() == old(self).agents(),
            old(self).capacity@.len() == old(self).standbys@.len(),
            old(self).actives@.len() == old(self).agents(),
            forall|a: int|
                0 <= a < old(self).agents() ==> texts((#[trigger] old(self).actives@[a])@) == old(
                    self,
                ).active(a),
            old(self).capacity@.len() <= old(self).agents(),
            forall|a: int|
                0 <= a < old(self).capacity@.len() ==> (old(
                    self,
                ).first@[a] matches FirstReport::Leaf(slots) ==> #[trigger] old(self).capacity@[a]
                    == slots),
            forall|a: int|
                0 <= a < old(self).capacity@.len() ==> (#[trigger] old(self).standbys@[a])@
                    == standby_of(
                    old(self).first@,
                    old(self).labels@,
                    old(self).latencies@,
                    old(self).policy,
                    a,
                ),
            old(self).require_redundancy && old(self).agents() > 0 ==> old(self).gaps().len() == 0,
        ensures
            final(self).wf(),
            same_settings(*old(self), *final(self)),
            final(self).first == old(self).first,
            final(self).capacity@.len() == next_relay(
                old(self).first@,
                old(self).capacity@.len() as int,
            ),
            final(self).capacity@.len() >= old(self).capacity@.len(),
            forall|a: int|
                0 <= a < old(self).capacity@.len() ==> final(self).capacity@[a]
                    == #[trigger] old(self).capacity@[a],
    {
        let ghost start = *self;
        let mut passing = true;
        while passing
            invariant
                same_settings(start, *self),
                self.first == start.first,
                self.actives == start.actives,
                self.first@.len() == self.agents(),
                self.capacity@.len() == self.standbys@.len(),
                self.capacity@.len() <= self.agents(),
                self.actives@.len() == self.agents(),
                start.capacity@.len() <= self.capacity@.len(),
                forall|a: int|
                    0 <= a < start.capacity@.len() ==> self.capacity@[a]
                        == #[trigger] start.capacity@[a],
                next_relay(start.first@, start.capacity@.len() as int) == next_relay(
                    start.first@,
                    self.capacity@.len() as int,
                ),
                forall|a: int|
                    0 <= a < self.agents() ==> texts((#[trigger] self.actives@[a])@)
                        == self.active(a),
                forall|a: int|
                    0 <= a < self.capacity@.len() ==> (self.first@[a] matches FirstReport::Leaf(
                        slots,
                    ) ==> #[trigger] self.capacity@[a] == slots),
                forall|a: int|
                    0 <= a < self.capacity@.len() ==> (#[trigger] self.standbys@[a])@
                        == standby_of(
                        self.first@,
                        self.labels@,
                        self.latencies@,
                        self.policy,
                        a,
                    ),
                self.require_redundancy && self.agents() > 0 ==> self.gaps().len() == 0,
                !passing ==> self.capacity@.len() == self.agents()
                    || self.first@[self.capacity@.len() as int] is Relay,
            decreases self.agents() - self.capacity@.len(), passing as int,
        {
            let agent: usize = self.capacity.len();
            passing = false;
            if agent < self.first.len() {
                let leaf: Option<usize> = match &self.first[agent] {
                    FirstReport::Leaf(slots) => Some(*slots),
                    FirstReport::Relay(_) => None,
                };
                match leaf {
                    Some(slots) => {
                        let none: Vec<ChildAd> = Vec::new();
                        proof {
                            assert(none@ =~= standby_of(
                                self.first@,
                                self.labels@,
                                self.latencies@,
                                self.policy,
                                agent as int,
                            ));
                        }
                        self.capacity.push(slots);
                        self.standbys.push(none);
                        passing = true;
                    },
                    None => {},
                }
            }
        }
    }
}

proof fn lemma_all_active(children: Seq<ChildAd>, n: int)
    requires
        0 <= n <= children.len(),
    ensures
        held_back(children, ad_labels(children), n) =~= Seq::empty(),
    decreases n,
{
    if n > 0 {
        lemma_all_active(children, n - 1);
        assert(ad_labels(children)[n - 1] == children[n - 1]@.label);
    }
}

/// A parent that approves every child leaves no standby.
pub proof fn law_approving_all_holds_nothing_back(h: Handshake, a: int)
    requires
        h.wf(),
        h.done(),
        h.policy == ActivationPolicy::ApproveAll,
        0 <= a < h.agents(),
    ensures
        h.standbys@[a]@.len() == 0,
{
    assert(h.standbys@[a]@ == standby_of(h.first@, h.labels@, h.latencies@, h.policy, a));
    lemma_all_active(children_of(h.first@, a), children_of(h.first@, a).len() as int);
}

/// Every child of a relay is either activated or held back, and none is both.
pub proof fn law_children_are_active_or_standby(
    children: Seq<ChildAd>,
    active: Seq<Seq<char>>,
    j: int,
    n: int,
)
    requires
        0 <= j < n <= children.len(),
    ensures
        held_back(children, active, n).contains(children[j]) <==> !active.contains(
            children[j]@.label,
        ),
    decreases n,
{
    let s = held_back(children, active, n - 1);
    if j < n - 1 {
        law_children_are_active_or_standby(children, active, j, n - 1);
    }
    if !active.contains(children[n - 1]@.label) {
        let t = s.push(children[n - 1]);
        if j == n - 1 {
            assert(t[s.len() as int] == children[j]);
        }
        if s.contains(children[j]) {
            let k = s.index_of(children[j]);
            assert(t[k] == children[j]);
        }
    }
    lemma_held_back_inactive(children, active, n);
}

proof fn lemma_held_back_inactive(children: Seq<ChildAd>, active: Seq<Seq<char>>, n: int)
    requires
        0 <= n <= children.len(),
    ensures
        forall|c: ChildAd| #[trigger]
            held_back(children, active, n).contains(c) ==> !active.contains(c@.label),
    decreases n,
{
    if n > 0 {
        lemma_held_back_inactive(children, active, n - 1);
        let s = held_back(children, active, n - 1);
        if !active.contains(children[n - 1]@.label) {
            let t = s.push(children[n - 1]);
            assert forall|c: ChildAd| #[trigger] t.contains(c) implies !active.contains(
                c@.label,
            ) by {
                let k = t.index_of(c);
                if k < s.len() {
                    assert(s.contains(s[k]));
                }
            }
        }
    }
}

/// Whether none of the agents is a relay.
pub open spec fn all_direct(first: Seq<FirstReport>) -> bool {
    forall|a: int| 0 <= a < first.len() ==> !((#[trigger] first[a]) is Relay)
}

proof fn lemma_no_relays(first: Seq<FirstReport>, n: int)
    requires
        all_direct(first),
        0 <= n <= first.len(),
    ensures
        relays_below(first, n).len() == 0,
        next_relay(first, n) == first.len(),
    decreases n,
{
    if n > 0 {
        assert(!(first[n - 1] is Relay));
        lemma_no_relays(first, n - 1);
    }
    lemma_no_relay_from(first, n);
}

proof fn lemma_no_relay_from(first: Seq<FirstReport>, n: int)
    requires
        all_direct(first),
        0 <= n <= first.len(),
    ensures
        next_relay(first, n) == first.len(),
    decreases first.len() - n,
{
    if n < first.len() {
        assert(!(first[n] is Relay));
        lemma_no_relay_from(first, n + 1);
    }
}

/// Hosts reached directly are no gap in the redundancy: only what a relay offers can
/// hang off a single relay.
pub proof fn law_direct_hosts_are_no_gap(
    first: Seq<FirstReport>,
    labels: Seq<String>,
    latencies: Seq<u64>,
)
    requires
        all_direct(first),
    ensures
        gaps_below(
            offers(first, labels, latencies),
            offers(first, labels, latencies).len() as int,
        ) == Seq::<Seq<char>>::empty(),
{
    lemma_no_relays(first, first.len() as int);
}

/// The state of a handshake with hosts reached directly after the first `k` have
/// reported.
proof fn lemma_direct_handshake(
    states: Seq<Handshake>,
    slots: Seq<usize>,
    results: Seq<Result<(), HandshakeError>>,
    k: int,
)
    requires
        states.len() == slots.len() + 1,
        results.len() == slots.len(),
        states[0].wf(),
        states[0].first@.len() == 0,
        states[0].agents() == slots.len(),
        forall|i: int|
            0 <= i < slots.len() ==> #[trigger] Handshake::replied(
                states[i],
                Some(FromAgent::Ready { slots: slots[i] }),
                results[i],
                states[i + 1],
            ),
        0 <= k <= slots.len(),
    ensures
        states[k].wf(),
        same_settings(states[0], states[k]),
        states[k].first@ == Seq::new(k as nat, |a: int| FirstReport::Leaf(slots[a])),
        forall|i: int| 0 <= i < k ==> (#[trigger] results[i]) is Ok,
        k > 0 && k == slots.len() ==> states[k].capacity@.len() == slots.len(),
    decreases k,
{
    if k == 0 {
        assert(states[0].first@ =~= Seq::new(0, |a: int| FirstReport::Leaf(slots[a])));
    } else {
        lemma_direct_handshake(states, slots, results, k - 1);
        let before = states[k - 1];
        let after = states[k - 1 + 1];
        assert(Handshake::replied(
            before,
            Some(FromAgent::Ready { slots: slots[k - 1] }),
            results[k - 1],
            after,
        ));
        assert(before.greeting());
        assert(after.first@ =~= Seq::new(k as nat, |a: int| FirstReport::Leaf(slots[a])));
        law_direct_hosts_are_no_gap(after.first@, after.labels@, after.latencies@);
        lemma_no_relays(after.first@, 0);
    }
}

/// A fleet of hosts reached directly is admitted whether or not redundancy is
/// required: the handshake goes through, and the run starts with each host's own
/// slots and nothing held back either way.
pub proof fn law_direct_hosts_are_admitted(
    states: Seq<Handshake>,
    slots: Seq<usize>,
    results: Seq<Result<(), HandshakeError>>,
)
    requires
        slots.len() > 0,
        states.len() == slots.len() + 1,
        results.len() == slots.len(),
        states[0].wf(),
        states[0].first@.len() == 0,
        states[0].agents() == slots.len(),
        forall|i: int|
            0 <= i < slots.len() ==> #[trigger] Handshake::replied(
                states[i],
                Some(FromAgent::Ready { slots: slots[i] }),
                results[i],
                states[i + 1],
            ),
    ensures
        forall|i: int| 0 <= i < results.len() ==> (#[trigger] results[i]) is Ok,
        states.last().done(),
        states.last().labels == states[0].labels,
        states.last().capacity@ == slots,
        states.last().standbys@.len() == slots.len(),
        forall|a: int|
            0 <= a < slots.len() ==> (#[trigger] states.last().standbys@[a])@
                == Seq::<ChildAd>::empty(),
{
    let n = slots.len() as int;
    lemma_direct_handshake(states, slots, results, n);
    let last = states[n];
    assert forall|a: int| 0 <= a < n implies last.capacity@[a] == slots[a] by {
        assert(last.first@[a] == FirstReport::Leaf(slots[a]));
    }
    assert(last.capacity@ =~= slots);
    assert forall|a: int| 0 <= a < n implies (#[trigger] last.standbys@[a])@
        == Seq::<ChildAd>::empty() by {
        assert(last.first@[a] == FirstReport::Leaf(slots[a]));
        assert(children_of(last.first@, a) == Seq::<ChildAd>::empty());
    }
}

/// Per-run policy flags.
#[derive(Debug, Clone, Copy, PartialEq, Eq, Structural)]
pub struct RunOptions {
    /// Refuse to start unless every machine has a redundant path.
    pub require_redundancy: bool,
    /// Let an idle agent race a straggler.
    pub speculative: bool,
}

impl Default for RunOptions {
    fn default() -> (r: RunOptions)
        ensures
            !r.require_redundancy,
            !r.speculative,
    {
        RunOptions { require_redundancy: false, speculative: false }
    }
}

/// What happened next in a run.
#[derive(Debug)]
pub enum RunInput {
    /// An agent sent something or was lost.
    Agent(AgentEvent),
    /// A node finished its handshake and joins.
    Join {
        /// Its label.
        label: String,
        /// Its slots.
        capacity: usize,
    },
    /// No further node can join.
    JoinsClosed,
}

/// Where a run stands.
#[derive(Debug, Clone, Copy, PartialEq, Eq, Structural)]
pub enum Verdict {
    /// Every task has its outcome.
    Finished,
    /// Tasks are open, no agent is alive and none can join.
    AllLost,
    /// The run goes on.
    Waiting,
}

/// One run: its schedule and whether nodes may still join.
#[derive(Debug)]
pub struct Run {
    /// The schedule.
    pub job: Job,
    /// Whether nodes may still join.
    pub joins_open: bool,
}

/// Whether some agent is alive.
pub open spec fn some_alive(job: JobModel) -> bool {
    exists|a: int| 0 <= a < job.alive.len() && #[trigger] job.alive[a]
}

/// The schedule a run starts with: every task waits, then each agent in turn is put
/// to work.
pub open spec fn begun(
    labels: Seq<Seq<char>>,
    capacity: Seq<usize>,
    standbys: Seq<Seq<ChildAd>>,
    payloads: Seq<Seq<u8>>,
    speculative: bool,
) -> JobModel {
    (JobModel {
        labels,
        in_flight: Seq::new(labels.len(), |a: int| 0usize),
        capacity,
        standbys,
        alive: Seq::new(labels.len(), |a: int| true),
        pending: Seq::new(payloads.len(), |i: int| i as usize),
        assigned: Seq::new(payloads.len(), |i: int| Seq::<usize>::empty()),
        results: Seq::new(payloads.len(), |i: int| None),
        remaining: payloads.len(),
        payloads,
        speculative,
        out: Seq::empty(),
    }).doing(
        ActionModel::Emit { event: EventModel::RunStarted { tasks: payloads.len() as usize } },
    ).put_to_work_below(labels.len() as int)
}

/// Whether no task has an outcome yet.
pub open spec fn unresolved(job: JobModel) -> bool {
    forall|i: int| 0 <= i < job.results.len() ==> (#[trigger] job.results[i]) is None
}

/// The schedule after `input`, or why the run is abandoned.
pub open spec fn job_after(job: JobModel, input: RunInput) -> Result<JobModel, JobError> {
    match input {
        RunInput::Agent(event) => job.after(event),
        RunInput::Join { label, capacity } => Ok(
            job.joined(label@, capacity).put_to_work(job.agents() as usize),
        ),
        RunInput::JoinsClosed => Ok(job),
    }
}

/// Whether `input` can happen next: it is about an agent of the run, and there is
/// room for one more agent where one joins.
pub open spec fn can_follow(job: JobModel, input: RunInput) -> bool {
    match input {
        RunInput::Agent(event) => about(event) < job.agents(),
        RunInput::Join { .. } => job.agents() < usize::MAX,
        RunInput::JoinsClosed => true,
    }
}

/// The schedule after the first `n` of `inputs`, unless one of them cannot happen or
/// makes the run be abandoned.
pub open spec fn job_through(job: JobModel, inputs: Seq<RunInput>, n: int) -> Option<JobModel>
    decreases n,
{
    if n <= 0 {
        Some(job)
    } else {
        match job_through(job, inputs, n - 1) {
            None => None,
            Some(before) => if can_follow(before, inputs[n - 1]) {
                match job_after(before, inputs[n - 1]) {
                    Ok(next) => Some(next),
                    Err(_) => None,
                }
            } else {
                None
            },
        }
    }
}

/// An outcome as a mathematical value.
pub open spec fn outcome_model(outcome: Outcome) -> Result<Seq<u8>, Seq<char>> {
    match outcome {
        Ok(output) => Ok(output@),
        Err(error) => Err(error@),
    }
}

/// Whether `input` reports of no task another outcome than `answer` gives for its
/// payload.
pub open spec fn faithful(
    payloads: Seq<Seq<u8>>,
    input: RunInput,
    answer: spec_fn(Seq<u8>) -> Result<Seq<u8>, Seq<char>>,
) -> bool {
    match input {
        RunInput::Agent(event) => match JobModel::reported(event) {
            Some((task, outcome)) => task < payloads.len() ==> outcome_model(outcome) == answer(
                payloads[task as int],
            ),
            None => true,
        },
        _ => true,
    }
}

/// Over faithful agents, what is resolved is resolved as `answer` says.
proof fn lemma_faithful_run(
    start: JobModel,
    inputs: Seq<RunInput>,
    n: int,
    answer: spec_fn(Seq<u8>) -> Result<Seq<u8>, Seq<char>>,
)
    requires
        start.wf(),
        unresolved(start),
        0 <= n <= inputs.len(),
        forall|k: int|
            0 <= k < inputs.len() ==> faithful(start.payloads, #[trigger] inputs[k], answer),
    ensures
        job_through(start, inputs, n) matches Some(job) ==> {
            &&& job.wf()
            &&& job.payloads == start.payloads
            &&& forall|i: int|
                0 <= i < job.tasks() ==> ((#[trigger] job.results[i]) matches Some(outcome)
                    ==> outcome_model(outcome) == answer(start.payloads[i]))
        },
    decreases n,
{
    if n > 0 {
        lemma_faithful_run(start, inputs, n - 1, answer);
        if job_through(start, inputs, n) is Some {
            let before = job_through(start, inputs, n - 1)->0;
            assert(faithful(start.payloads, inputs[n - 1], answer));
            match inputs[n - 1] {
                RunInput::Agent(event) => {
                    before.law_events_keep_the_invariant(event);
                    before.law_first_outcome_stands(event);
                },
                RunInput::Join { label, capacity } => {
                    before.law_joining_keeps_the_run(label@, capacity);
                },
                RunInput::JoinsClosed => {},
            }
        }
    }
}

/// Racing leaves the results of a deterministic map as they are. Where every agent
/// that reports a task's outcome reports the one its payload determines, a run that
/// races stragglers and one that does not, over whatever agents and however their
/// events fall, end with the same outcome for each input, in input order.
pub proof fn law_racing_changes_no_result(
    plain: JobModel,
    racing: JobModel,
    plain_inputs: Seq<RunInput>,
    racing_inputs: Seq<RunInput>,
    answer: spec_fn(Seq<u8>) -> Result<Seq<u8>, Seq<char>>,
)
    requires
        plain.wf(),
        racing.wf(),
        unresolved(plain),
        unresolved(racing),
        !plain.speculative,
        racing.speculative,
        plain.payloads == racing.payloads,
        forall|k: int|
            0 <= k < plain_inputs.len() ==> faithful(
                plain.payloads,
                #[trigger] plain_inputs[k],
                answer,
            ),
        forall|k: int|
            0 <= k < racing_inputs.len() ==> faithful(
                racing.payloads,
                #[trigger] racing_inputs[k],
                answer,
            ),
        job_through(plain, plain_inputs, plain_inputs.len() as int) is Some,
        job_through(racing, racing_inputs, racing_inputs.len() as int) is Some,
        job_through(plain, plain_inputs, plain_inputs.len() as int)->0.remaining == 0,
        job_through(racing, racing_inputs, racing_inputs.len() as int)->0.remaining == 0,
    ensures
        ({
            let slow = job_through(plain, plain_inputs, plain_inputs.len() as int)->0;
            let fast = job_through(racing, racing_inputs, racing_inputs.len() as int)->0;
            &&& slow.results.len() == plain.payloads.len()
            &&& fast.results.len() == plain.payloads.len()
            &&& forall|i: int|
                0 <= i < plain.payloads.len() ==> ((#[trigger] slow.results[i]) matches Some(outcome)
                    && outcome_model(outcome) == answer(plain.payloads[i]))
            &&& forall|i: int|
                0 <= i < plain.payloads.len() ==> ((#[trigger] fast.results[i]) matches Some(outcome)
                    && outcome_model(outcome) == answer(plain.payloads[i]))
        }),
{
    lemma_faithful_run(plain, plain_inputs, plain_inputs.len() as int, answer);
    lemma_faithful_run(racing, racing_inputs, racing_inputs.len() as int, answer);
    let slow = job_through(plain, plain_inputs, plain_inputs.len() as int)->0;
    let fast = job_through(racing, racing_inputs, racing_inputs.len() as int)->0;
    slow.law_nothing_open_means_all_resolved();
    fast.law_nothing_open_means_all_resolved();
}

/// A run nothing has happened in yet keeps the invariant.
proof fn lemma_fresh_wf(fresh: JobModel)
    requires
        fresh.labels.len() <= usize::MAX,
        fresh.payloads.len() <= usize::MAX,
        fresh.in_flight == Seq::new(fresh.labels.len(), |a: int| 0usize),
        fresh.capacity.len() == fresh.labels.len(),
        fresh.standbys.len() == fresh.labels.len(),
        fresh.alive == Seq::new(fresh.labels.len(), |a: int| true),
        fresh.pending == Seq::new(fresh.payloads.len(), |i: int| i as usize),
        fresh.assigned == Seq::new(fresh.payloads.len(), |i: int| Seq::<usize>::empty()),
        fresh.results == Seq::new(fresh.payloads.len(), |i: int| None::<Outcome>),
        fresh.remaining == fresh.payloads.len(),
    ensures
        fresh.wf(),
{
    crate::job::lemma_all_open(fresh.results, fresh.tasks() as int);
    assert forall|x: int| 0 <= x < fresh.agents() implies (#[trigger] fresh.in_flight[x]) as nat
        == crate::job::load(fresh.assigned, x as usize) by {
        crate::job::lemma_load_none(fresh.assigned, x as usize, fresh.tasks() as int);
    }
    assert forall|i: int|
        0 <= i < fresh.tasks() && (#[trigger] fresh.results[i]) is None && fresh.assigned[i].len()
            == 0 implies fresh.pending.contains(i as usize) by {
        assert(fresh.pending[i] == i as usize);
    }
    assert(fresh.pending.no_duplicates());
}

/// Whether every task handed out so far was handed out with its own whole input, and
/// every task that runs on an agent was handed to it.
pub open spec fn inputs_arrive(job: JobModel, payloads: Seq<Seq<u8>>) -> bool {
    &&& job.payloads == payloads
    &&& forall|k: int|
        0 <= k < job.out.len() ==> ((#[trigger] job.out[k]) matches ActionModel::Send {
            message: ToAgentModel::Assign { task_id, payload },
            ..
        } ==> task_id < payloads.len() && payload == payloads[task_id as int])
    &&& forall|i: int, agent: usize|
        0 <= i < payloads.len() && (#[trigger] job.assigned[i].contains(agent)) ==> handed_since(
            job.out,
            0,
            agent,
            i,
            payloads[i],
        )
}

/// One more step of a run whose inputs arrive.
proof fn lemma_inputs_arrive(before: JobModel, after: JobModel, payloads: Seq<Seq<u8>>)
    requires
        inputs_arrive(before, payloads),
        after.payloads == payloads,
        before.out.len() <= after.out.len(),
        after.out.take(before.out.len() as int) == before.out,
        forall|k: int|
            before.out.len() <= k < after.out.len() ==> ((#[trigger] after.out[k]) matches
                ActionModel::Send { message: ToAgentModel::Assign { task_id, payload }, .. }
                ==> task_id < payloads.len() && payload == payloads[task_id as int]),
        forall|i: int, agent: usize|
            0 <= i < payloads.len() && (#[trigger] after.assigned[i].contains(agent))
                && !before.assigned[i].contains(agent) ==> handed_since(
                after.out,
                before.out.len() as int,
                agent,
                i,
                payloads[i],
            ),
    ensures
        inputs_arrive(after, payloads),
{
    let from = before.out.len() as int;
    assert forall|k: int| 0 <= k < from implies after.out[k] == before.out[k] by {
        assert(after.out.take(from)[k] == after.out[k]);
    }
    assert forall|i: int, agent: usize|
        0 <= i < payloads.len() && (#[trigger] after.assigned[i].contains(agent)) implies handed_since(
        after.out,
        0,
        agent,
        i,
        payloads[i],
    ) by {
        let wanted = ActionModel::Send {
            agent,
            message: ToAgentModel::Assign { task_id: i as u64, payload: payloads[i] },
        };
        if before.assigned[i].contains(agent) {
            let k = choose|k: int|
                0 <= k < before.out.len() && #[trigger] before.out[k] == wanted;
            assert(after.out[k] == wanted);
        } else {
            let k = choose|k: int| from <= k < after.out.len() && #[trigger] after.out[k] == wanted;
            assert(0 <= k);
        }
    }
}

/// In every history of a run, whatever agents are lost, race or join: the run starts
/// by announcing its tasks, each task handed out carries exactly the bytes of its own
/// input, and every task that runs on an agent was sent to it.
pub proof fn law_every_history_hands_out_whole_inputs(
    labels: Seq<Seq<char>>,
    capacity: Seq<usize>,
    standbys: Seq<Seq<ChildAd>>,
    payloads: Seq<Seq<u8>>,
    speculative: bool,
    inputs: Seq<RunInput>,
    n: int,
)
    requires
        labels.len() <= usize::MAX,
        payloads.len() <= usize::MAX,
        capacity.len() == labels.len(),
        standbys.len() == labels.len(),
        0 <= n <= inputs.len(),
    ensures
        job_through(begun(labels, capacity, standbys, payloads, speculative), inputs, n) matches
            Some(job) ==> {
            &&& job.wf()
            &&& inputs_arrive(job, payloads)
            &&& job.out.len() > 0
            &&& job.out[0] == (ActionModel::Emit {
                event: EventModel::RunStarted { tasks: payloads.len() as usize },
            })
            &&& job.labels.len() >= labels.len()
            &&& job.labels.take(labels.len() as int) == labels
            &&& job.speculative == speculative
        },
    decreases n,
{
    let start = begun(labels, capacity, standbys, payloads, speculative);
    if n == 0 {
        let fresh = JobModel {
            labels,
            in_flight: Seq::new(labels.len(), |a: int| 0usize),
            capacity,
            standbys,
            alive: Seq::new(labels.len(), |a: int| true),
            pending: Seq::new(payloads.len(), |i: int| i as usize),
            assigned: Seq::new(payloads.len(), |i: int| Seq::<usize>::empty()),
            results: Seq::new(payloads.len(), |i: int| None),
            remaining: payloads.len(),
            payloads,
            speculative,
            out: Seq::empty(),
        };
        let told = fresh.doing(
            ActionModel::Emit { event: EventModel::RunStarted { tasks: payloads.len() as usize } },
        );
        lemma_fresh_wf(told);
        told.law_a_run_begins_with_whole_inputs(labels.len() as int);
        assert(start == told.put_to_work_below(labels.len() as int));
        assert forall|k: int| 1 <= k < start.out.len() implies ((#[trigger] start.out[k]) matches
            ActionModel::Send { message: ToAgentModel::Assign { task_id, payload }, .. } ==> task_id
            < payloads.len() && payload == payloads[task_id as int]) by {
            assert(right_message(told, start, k));
        }
        assert(inputs_arrive(told, payloads));
        lemma_inputs_arrive(told, start, payloads);
        assert(start.out.take(1)[0] == told.out[0]);
        assert(labels.take(labels.len() as int) =~= labels);
    } else {
        law_every_history_hands_out_whole_inputs(
            labels,
            capacity,
            standbys,
            payloads,
            speculative,
            inputs,
            n - 1,
        );
        if job_through(start, inputs, n) is Some {
            let before = job_through(start, inputs, n - 1)->0;
            let after = job_through(start, inputs, n)->0;
            match inputs[n - 1] {
                RunInput::Agent(event) => {
                    before.law_events_keep_the_invariant(event);
                    before.law_agents_get_whole_inputs(event);
                    before.law_settings_stay(event);
                    assert forall|k: int| before.out.len() <= k < after.out.len() implies ((
                    #[trigger] after.out[k]) matches ActionModel::Send {
                        message: ToAgentModel::Assign { task_id, payload },
                        ..
                    } ==> task_id < payloads.len() && payload == payloads[task_id as int]) by {
                        assert(right_assignment(before, after, k));
                    }
                    lemma_inputs_arrive(before, after, payloads);
                },
                RunInput::Join { label, capacity: slots } => {
                    before.law_joining_keeps_the_run(label@, slots);
                    before.law_a_joiner_gets_whole_inputs(label@, slots);
                    before.law_a_join_keeps_the_settings(label@, slots);
                    lemma_inputs_arrive(before, after, payloads);
                    assert(after.labels.take(labels.len() as int) =~= before.labels.take(
                        labels.len() as int,
                    ));
                },
                RunInput::JoinsClosed => {},
            }
            assert(after.out[0] == before.out[0]) by {
                assert(after.out.take(before.out.len() as int)[0] == after.out[0]) by {
                    if inputs[n - 1] is JoinsClosed {
                        assert(after.out.take(before.out.len() as int) =~= after.out);
                    }
                }
            }
        }
    }
}

/// Whether `input` is an agent's report that `task` came to `outcome`.
pub open spec fn reports_outcome(input: RunInput, task: int, outcome: Outcome) -> bool {
    match input {
        RunInput::Agent(
            AgentEvent::Message(_, FromAgent::Completed { task_id, output, .. }),
        ) => task_id == task && outcome == Ok::<Vec<u8>, String>(output),
        RunInput::Agent(
            AgentEvent::Message(_, FromAgent::Failed { task_id, error, .. }),
        ) => task_id == task && outcome == Err::<Vec<u8>, String>(error),
        _ => false,
    }
}

/// In every history of a run, an outcome is what an agent reported for that very
/// task: nothing is made up, mixed up or altered.
pub proof fn law_every_outcome_was_reported(start: JobModel, inputs: Seq<RunInput>, n: int)
    requires
        start.wf(),
        unresolved(start),
        0 <= n <= inputs.len(),
    ensures
        job_through(start, inputs, n) matches Some(job) ==> {
            &&& job.wf()
            &&& job.payloads == start.payloads
            &&& forall|i: int|
                0 <= i < job.results.len() ==> ((#[trigger] job.results[i]) matches Some(outcome)
                    ==> exists|k: int|
                    0 <= k < n && reports_outcome(#[trigger] inputs[k], i, outcome))
        },
    decreases n,
{
    if n > 0 {
        law_every_outcome_was_reported(start, inputs, n - 1);
        if job_through(start, inputs, n) is Some {
            let before = job_through(start, inputs, n - 1)->0;
            let after = job_through(start, inputs, n)->0;
            match inputs[n - 1] {
                RunInput::Agent(event) => {
                    before.law_events_keep_the_invariant(event);
                    before.law_first_outcome_stands(event);
                },
                RunInput::Join { label, capacity } => {
                    before.law_joining_keeps_the_run(label@, capacity);
                },
                RunInput::JoinsClosed => {},
            }
            assert forall|i: int| 0 <= i < after.results.len() implies ((
            #[trigger] after.results[i]) matches Some(outcome) ==> exists|k: int|
                0 <= k < n && reports_outcome(#[trigger] inputs[k], i, outcome)) by {
                if after.results[i] is Some {
                    let outcome = after.results[i]->0;
                    if before.results[i] is Some {
                        assert(before.results[i] == after.results[i]);
                        let k = choose|k: int|
                            0 <= k < n - 1 && reports_outcome(#[trigger] inputs[k], i, outcome);
                        assert(reports_outcome(inputs[k], i, outcome));
                    } else {
                        assert(reports_outcome(inputs[n - 1], i, outcome));
                    }
                }
            }
        }
    }
}

impl Run {
    /// What holds of a run between any two inputs.
    pub open spec fn wf(&self) -> bool {
        self.job@.wf()
    }

    /// Where the run stands.
    pub open spec fn stands(&self) -> Verdict {
        if self.job@.remaining == 0 {
            Verdict::Finished
        } else if !some_alive(self.job@) && !self.joins_open {
            Verdict::AllLost
        } else {
            Verdict::Waiting
        }
    }

    /// Start a run of `payloads` over agents that finished their handshake.
    pub fn begin(
        labels: Vec<String>,
        capacity: Vec<usize>,
        standbys: Vec<Vec<ChildAd>>,
        payloads: Vec<Vec<u8>>,
        options: RunOptions,
    ) -> (r: Run)
        requires
            capacity@.len() == labels@.len(),
            standbys@.len() == labels@.len(),
        ensures
            r.wf(),
            r.joins_open,
            r.job@ == begun(
                texts(labels@),
                capacity@,
                rows(standbys@),
                bytes(payloads@),
                options.speculative,
            ),
            r.job@.payloads == bytes(payloads@),
            r.job.payloads@.len() == payloads@.len(),
            forall|i: int|
                0 <= i < payloads@.len() ==> (#[trigger] r.job.payloads@[i])@ == payloads@[i]@,
            unresolved(r.job@),
    {
        let mut job = Job::new(labels, capacity, standbys, payloads, options.speculative);
        proof {
            assert(bytes(job.payloads@).len() == bytes(payloads@).len());
            assert forall|i: int| 0 <= i < payloads@.len() implies (#[trigger] job.payloads@[i])@
                == payloads@[i]@ by {
                assert(bytes(job.payloads@)[i] == bytes(payloads@)[i]);
            }
        }
        let ghost given = job.payloads@;
        job.start();
        proof {
            assert(bytes(job.payloads@).len() == bytes(given).len());
            assert forall|i: int| 0 <= i < payloads@.len() implies (#[trigger] job.payloads@[i])@
                == payloads@[i]@ by {
                assert(bytes(job.payloads@)[i] == bytes(given)[i]);
            }
        }
        Run { job, joins_open: true }
    }

    /// Where the run stands.
    pub fn verdict(&self) -> (r: Verdict)
        requires
            self.wf(),
        ensures
            r == self.stands(),
    {
        if self.job.remaining == 0 {
            Verdict::Finished
        } else if !self.job.any_alive() && !self.joins_open {
            Verdict::AllLost
        } else {
            Verdict::Waiting
        }
    }

    /// Fold in what happened next.
    pub fn step(&mut self, input: RunInput) -> (r: Result<(), JobError>)
        requires
            old(self).wf(),
            can_follow(old(self).job@, input),
        ensures
            final(self).wf(),
            final(self).joins_open == (old(self).joins_open && !(input is JoinsClosed)),
            match job_after(old(self).job@, input) {
                Ok(next) => r is Ok && final(self).job@ == next,
                Err(e) => r == Err::<(), JobError>(e) && final(self).job@ == old(self).job@,
            },
    {
        match input {
            RunInput::Agent(event) => self.job.on_event(event),
            RunInput::Join { label, capacity } => {
                self.job.join(label, capacity);
                Ok(())
            },
            RunInput::JoinsClosed => {
                self.joins_open = false;
                Ok(())
            },
        }
    }

    /// The outcomes in input order, or the reason there are none.
    pub fn finish(self) -> (r: Result<Vec<Outcome>, JobError>)
        requires
            self.wf(),
            self.stands() != Verdict::Waiting,
        ensures
            match self.stands() {
                Verdict::Finished => r matches Ok(outcomes) && outcomes@.len()
                    == self.job@.tasks() && forall|i: int|
                    0 <= i < outcomes@.len() ==> self.job@.results[i] == Some(
                        #[trigger] outcomes@[i],
                    ),
                _ => r == Err::<Vec<Outcome>, JobError>(JobError::AllLost),
            },
    {
        if self.job.remaining == 0 {
            Ok(self.job.into_results())
        } else {
            Err(JobError::AllLost)
        }
    }
}

/// The text a job's failure is reported with.
pub open spec fn failure_text(e: JobError) -> Seq<char> {
    match e {
        JobError::RepeatedHandshake => "agent sent a handshake message more than once"@,
        JobError::AllLost => "every agent was lost and no node could join before the job completed"@,
    }
}

/// The text a job's failure is reported with.
pub fn failure_message(e: JobError) -> (r: &'static str)
    ensures
        r@ == failure_text(e),
        e == JobError::RepeatedHandshake ==> r@ == "agent sent a handshake message more than once"@,
        e == JobError::AllLost ==> r@
            == "every agent was lost and no node could join before the job completed"@,
{
    match e {
        JobError::RepeatedHandshake => "agent sent a handshake message more than once",
        JobError::AllLost => "every agent was lost and no node could join before the job completed",
    }
}

/// One task's outcome in the caller's type, given what decoding its bytes gave: a
/// task that failed keeps its error, and a failure to decode becomes the task's
/// error.
pub fn decode_output<O>(raw: Result<Result<O, String>, String>) -> (r: Result<O, String>)
    ensures
        match raw {
            Err(e) => r == Err::<O, String>(e),
            Ok(Ok(value)) => r == Ok::<O, String>(value),
            Ok(Err(e)) => r matches Err(text) && text@ == "decode output: "@ + e@,
        },
{
    match raw {
        Err(e) => Err(e),
        Ok(Ok(value)) => Ok(value),
        Ok(Err(e)) => {
            let mut text = "decode output: ".to_owned();
            text.append(e.as_str());
            Err(text)
        },
    }
}

/// Where a run stands goes by what is left: it is finished when no task is open,
/// whatever became of its agents; it is lost when some are, no agent is up and none can
/// join; else it goes on.
pub proof fn law_where_a_run_stands(run: Run)
    ensures
        run.job@.remaining == 0 ==> run.stands() == Verdict::Finished,
        run.job@.remaining > 0 && (run.joins_open || exists|a: int|
            0 <= a < run.job@.alive.len() && #[trigger] run.job@.alive[a]) ==> run.stands()
            == Verdict::Waiting,
        run.job@.remaining > 0 && !run.joins_open && (forall|a: int|
            0 <= a < run.job@.alive.len() ==> !(#[trigger] run.job@.alive[a])) ==> run.stands()
            == Verdict::AllLost,
{
}

/// An agent's first reply says what it is: with its slots it is a leaf, with its
/// children a relay, and anything else, the end of the conversation included, is refused.
pub proof fn law_first_replies(slots: usize, children: Vec<ChildAd>, other: Option<FromAgent>)
    ensures
        Handshake::first_of(Some(FromAgent::Ready { slots })) == Ok::<FirstReport, HandshakeError>(
            FirstReport::Leaf(slots),
        ),
        Handshake::first_of(Some(FromAgent::Discovered { children })) == Ok::<
            FirstReport,
            HandshakeError,
        >(FirstReport::Relay(children)),
        !(other matches Some(FromAgent::Ready { .. })) && !(other matches Some(
            FromAgent::Discovered { .. },
        )) ==> Handshake::first_of(other) == Err::<FirstReport, HandshakeError>(
            HandshakeError::Unexpected { want: Expected::ReadyOrDiscovered, got: other },
        ),
{
}

proof fn lemma_relay_list(first: Seq<FirstReport>, n: int)
    requires
        0 <= n <= first.len() <= usize::MAX,
    ensures
        forall|k: int|
            0 <= k < relays_below(first, n).len() ==> (#[trigger] relays_below(first, n)[k]) < n
                && first[relays_below(first, n)[k] as int] is Relay,
        forall|k: int, l: int|
            0 <= k < l < relays_below(first, n).len() ==> (#[trigger] relays_below(first, n)[k]) < (
            #[trigger] relays_below(first, n)[l]),
        forall|a: int|
            0 <= a < n && (#[trigger] first[a]) is Relay ==> relays_below(first, n).contains(
                a as usize,
            ),
    decreases n,
{
    if n > 0 {
        lemma_relay_list(first, n - 1);
        let before = relays_below(first, n - 1);
        let now = relays_below(first, n);
        assert forall|k: int| 0 <= k < now.len() implies (#[trigger] now[k]) < n
            && first[now[k] as int] is Relay by {
            if k < before.len() {
                assert(now[k] == before[k]);
            }
        }
        assert forall|k: int, l: int| 0 <= k < l < now.len() implies (#[trigger] now[k]) < (
        #[trigger] now[l]) by {
            assert(now[k] == before[k]);
            if l < before.len() {
                assert(now[l] == before[l]);
            }
        }
        assert forall|a: int| 0 <= a < n && (#[trigger] first[a]) is Relay implies now.contains(
            a as usize,
        ) by {
            if a < n - 1 {
                assert(now[before.index_of(a as usize)] == a as usize);
            } else {
                assert(now[before.len() as int] == a as usize);
            }
        }
    }
}

/// What is weighed against each other is what each relay offers, one offer per relay in
/// agent order, with the relay's own label, its measured latency or zero, and the very
/// children it described.
pub proof fn law_every_relay_makes_one_offer(
    first: Seq<FirstReport>,
    labels: Seq<String>,
    latencies: Seq<u64>,
) -> (of: Seq<usize>)
    requires
        first.len() <= usize::MAX,
        labels.len() == first.len(),
    ensures
        of.len() == offers(first, labels, latencies).len(),
        forall|k: int, l: int| 0 <= k < l < of.len() ==> (#[trigger] of[k]) < (#[trigger] of[l]),
        forall|a: int|
            0 <= a < first.len() ==> ((#[trigger] first[a]) is Relay <==> of.contains(a as usize)),
        forall|k: int|
            0 <= k < of.len() ==> {
                let a = of[k] as int;
                let offer = #[trigger] offers(first, labels, latencies)[k];
                &&& a < first.len()
                &&& first[a] matches FirstReport::Relay(children) && offer.children.len()
                    == children@.len() && forall|j: int|
                    0 <= j < children@.len() ==> (#[trigger] offer.children[j]) == children@[j]@
                &&& offer.label == labels[a]@
                &&& offer.latency_us == if a < latencies.len() {
                    latencies[a]
                } else {
                    0
                }
            },
{
    let of = relays_below(first, first.len() as int);
    lemma_relay_list(first, first.len() as int);
    assert forall|a: int| 0 <= a < first.len() implies ((#[trigger] first[a]) is Relay
        <==> of.contains(a as usize)) by {
        if of.contains(a as usize) {
            let k = of.index_of(a as usize);
            assert(of[k] == a as usize);
        }
    }
    of
}

/// A leaf is told to activate nothing; a relay over its own children all of them, in
/// order; a relay of a coordinator those that it is the quickest way to.
pub proof fn law_what_agents_are_told_to_activate(
    first: Seq<FirstReport>,
    labels: Seq<String>,
    latencies: Seq<u64>,
    a: int,
)
    requires
        first.len() <= usize::MAX,
        labels.len() == first.len(),
        0 <= a < first.len(),
    ensures
        first[a] is Leaf ==> active_for(
            first,
            labels,
            latencies,
            ActivationPolicy::ApproveAll,
            a,
        ).len() == 0 && active_for(first, labels, latencies, ActivationPolicy::DedupById, a).len()
            == 0,
        first[a] matches FirstReport::Relay(children) ==> {
            let all = active_for(first, labels, latencies, ActivationPolicy::ApproveAll, a);
            &&& all.len() == children@.len()
            &&& forall|j: int| 0 <= j < all.len() ==> (#[trigger] all[j]) == children@[j]@.label
            &&& exists|k: int|
                0 <= k < offers(first, labels, latencies).len() && (#[trigger] offers(
                    first,
                    labels,
                    latencies,
                )[k]) == offer_of(first, labels, latencies, a) && active_for(
                    first,
                    labels,
                    latencies,
                    ActivationPolicy::DedupById,
                    a,
                ) == chosen(offers(first, labels, latencies), k)
        },
{
    if first[a] is Relay {
        lemma_relays_prefix(first, a, first.len() as int);
        let k = relays_below(first, a).len() as int;
        assert(offers(first, labels, latencies)[k] == offer_of(first, labels, latencies, a));
    }
}

/// What is held back keeps the order in which it was described, and is part of it.
pub proof fn law_what_is_held_back_keeps_its_order(
    children: Seq<ChildAd>,
    active: Seq<Seq<char>>,
    n: int,
)
    requires
        0 <= n <= children.len(),
    ensures
        n == 0 ==> held_back(children, active, n).len() == 0,
        n > 0 && active.contains(children[n - 1]@.label) ==> held_back(children, active, n)
            == held_back(children, active, n - 1),
        n > 0 && !active.contains(children[n - 1]@.label) ==> held_back(children, active, n)
            == held_back(children, active, n - 1).push(children[n - 1]),
{
}

/// What happens in a run: an agent's event is folded into the schedule, a node that joins is
/// added and put to work, and that no more can join leaves the schedule as it is.
pub proof fn law_what_happens_in_a_run(
    job: JobModel,
    event: AgentEvent,
    label: String,
    capacity: usize,
)
    ensures
        job_after(job, RunInput::Agent(event)) == job.after(event),
        job_after(job, RunInput::Join { label, capacity }) == Ok::<JobModel, JobError>(
            job.joined(label@, capacity).put_to_work(job.labels.len() as usize),
        ),
        job_after(job, RunInput::JoinsClosed) == Ok::<JobModel, JobError>(job),
        can_follow(job, RunInput::Agent(event)) <==> about(event) < job.labels.len(),
        can_follow(job, RunInput::Join { label, capacity }) <==> job.labels.len() < usize::MAX,
        can_follow(job, RunInput::JoinsClosed),
{
}

/// What a reply does to a handshake. While agents are greeted, slots make a leaf and children
/// a relay, and anything else fails the handshake and leaves it as it is; after that the slots
/// of a relay are taken down behind those already known, and anything else fails it.
pub proof fn law_what_a_reply_does(
    before: Handshake,
    reply: Option<FromAgent>,
    r: Result<(), HandshakeError>,
    after: Handshake,
)
    requires
        before.wf(),
        !before.done(),
        Handshake::replied(before, reply, r, after),
    ensures
        after.labels == before.labels,
        after.latencies == before.latencies,
        after.fn_key == before.fn_key,
        after.heartbeat == before.heartbeat,
        after.require_redundancy == before.require_redundancy,
        after.policy == before.policy,
        before.first@.len() < before.labels@.len() ==> match reply {
            Some(FromAgent::Ready { slots }) => after.first@ == before.first@.push(
                FirstReport::Leaf(slots),
            ),
            Some(FromAgent::Discovered { children }) => after.first@ == before.first@.push(
                FirstReport::Relay(children),
            ),
            other => after == before && r == Err::<(), HandshakeError>(
                HandshakeError::Unexpected { want: Expected::ReadyOrDiscovered, got: other },
            ),
        },
        before.first@.len() + 1 < before.labels@.len() && (reply matches Some(
            FromAgent::Ready { .. },
        ) || reply matches Some(FromAgent::Discovered { .. })) ==> r is Ok,
        before.first@.len() + 1 == before.labels@.len() && (reply matches Some(
            FromAgent::Ready { .. },
        ) || reply matches Some(FromAgent::Discovered { .. })) ==> {
            let all = offers(after.first@, after.labels@, after.latencies@);
            let gaps = gaps_below(all, all.len() as int);
            if before.require_redundancy && gaps.len() > 0 {
                r matches Err(HandshakeError::NotRedundant { gaps: named }) && texts(named@) == gaps
            } else {
                r is Ok
            }
        },
        before.first@.len() >= before.labels@.len() ==> match reply {
            Some(FromAgent::Ready { slots }) => {
                &&& r is Ok
                &&& after.first@ == before.first@
                &&& after.capacity@.len() > before.capacity@.len()
                &&& after.capacity@.take(before.capacity@.len() as int) == before.capacity@
                &&& after.capacity@[before.capacity@.len() as int] == slots
            },
            other => after == before && r == Err::<(), HandshakeError>(
                HandshakeError::Unexpected { want: Expected::ReadyAfterActivate, got: other },
            ),
        },
{
    if before.first@.len() >= before.labels@.len() {
        lemma_next_relay(before.first@, before.capacity@.len() as int + 1);
    }
}

proof fn lemma_next_relay(first: Seq<FirstReport>, a: int)
    requires
        0 <= a <= first.len(),
    ensures
        a <= next_relay(first, a) <= first.len(),
        next_relay(first, a) < first.len() ==> first[next_relay(first, a)] is Relay,
        forall|b: int| a <= b < next_relay(first, a) ==> (#[trigger] first[b]) is Leaf,
    decreases first.len() - a,
{
    if a < first.len() && !(first[a] is Relay) {
        lemma_next_relay(first, a + 1);
    }
}

/// What a handshake has settled once every agent is through: a leaf has the slots it said, and
/// each agent holds back exactly the children it was not told to activate, in their order.
pub proof fn law_what_a_handshake_settles(h: Handshake, a: int)
    requires
        h.wf(),
        h.done(),
        0 <= a < h.labels@.len(),
    ensures
        h.capacity@.len() == h.labels@.len(),
        h.standbys@.len() == h.labels@.len(),
        h.first@[a] matches FirstReport::Leaf(slots) ==> h.capacity@[a] == slots
            && h.standbys@[a]@.len() == 0,
        h.first@[a] matches FirstReport::Relay(children) ==> h.standbys@[a]@ == held_back(
            children@,
            active_for(h.first@, h.labels@, h.latencies@, h.policy, a),
            children@.len() as int,
        ),
        h.require_redundancy ==> gaps_below(
            offers(h.first@, h.labels@, h.latencies@),
            offers(h.first@, h.labels@, h.latencies@).len() as int,
        ).len() == 0,
{
    assert(h.standbys@[a]@ == standby_of(h.first@, h.labels@, h.latencies@, h.policy, a));
    assert(h.first@[a] matches FirstReport::Leaf(slots) ==> h.capacity@[a] == slots);
}

} // verus!
