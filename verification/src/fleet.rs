//! The user-facing fleet: which hosts take part in a run, which are tried again
//! later, and how the outputs are folded.
use vstd::prelude::*;
use vstd::string::*;

use crate::capability::{Filter, NodeProfile, Predicate, ProfileModel, Role};
use crate::coordinator::RunOptions;
use crate::observability::{Event, EventModel, NoopSink};
use crate::text::{join, joined, texts};

verus! {

/// A set of agent launchers, with an observer for the run and an optional rule
/// giving each host its role.
#[derive(Debug)]
pub struct Fleet<L, E> {
    launchers: Vec<L>,
    events: E,
    filter: Option<Filter>,
}

impl<L, E> Fleet<L, E> {
    /// The launchers.
    pub closed spec fn spec_launchers(&self) -> Seq<L> {
        self.launchers@
    }

    /// The observer.
    pub closed spec fn spec_events(&self) -> E {
        self.events
    }

    /// The rule giving each host its role.
    pub closed spec fn spec_filter(&self) -> Option<Filter> {
        self.filter
    }

    /// Build a fleet whose run emits its event stream to `events`, with every host
    /// computing.
    pub fn observed(launchers: Vec<L>, events: E) -> (r: Fleet<L, E>)
        ensures
            r.spec_launchers() == launchers@,
            r.spec_events() == events,
            r.spec_filter() is None,
    {
        Fleet { launchers, events, filter: None }
    }

    /// Give each host its role from its probed capabilities: only the hosts that
    /// `filter` lets compute run tasks.
    pub fn with_filter(self, filter: Filter) -> (r: Fleet<L, E>)
        ensures
            r.spec_launchers() == self.spec_launchers(),
            r.spec_events() == self.spec_events(),
            r.spec_filter() == Some(filter),
    {
        Fleet { launchers: self.launchers, events: self.events, filter: Some(filter) }
    }

    /// The launchers.
    pub fn launchers(&self) -> (r: &Vec<L>)
        ensures
            r@ == self.spec_launchers(),
    {
        &self.launchers
    }

    /// The observer.
    pub fn events(&self) -> (r: &E)
        ensures
            *r == self.spec_events(),
    {
        &self.events
    }

    /// The rule giving each host its role.
    pub fn filter(&self) -> (r: Option<Filter>)
        ensures
            r == self.spec_filter(),
    {
        self.filter
    }
}

impl<L> Fleet<L, NoopSink> {
    /// Build a fleet with the run unobserved and every host computing.
    pub fn new(launchers: Vec<L>) -> (r: Fleet<L, NoopSink>)
        ensures
            r.spec_launchers() == launchers@,
            r.spec_filter() is None,
    {
        Fleet { launchers, events: NoopSink, filter: None }
    }
}

/// The role a host with this profile gets; without a filter every host computes.
pub open spec fn role_under(filter: Option<Filter>, profile: ProfileModel) -> Role {
    match filter {
        None => Role::Compute,
        Some(filter) => filter.role_for(profile),
    }
}

/// Whether a host with this profile runs this job's tasks: it computes and meets
/// the job's own requirement.
pub open spec fn takes_part(
    filter: Option<Filter>,
    requirement: Option<Predicate>,
    profile: ProfileModel,
) -> bool {
    &&& role_under(filter, profile) == Role::Compute
    &&& requirement matches Some(predicate) ==> predicate.holds(profile)
}

/// Judge a probed host: the event announcing it, and whether it takes part.
pub fn assess(
    label: &str,
    id: &str,
    profile: NodeProfile,
    latency_us: u64,
    filter: Option<Filter>,
    requirement: Option<Predicate>,
) -> (r: (Event, bool))
    ensures
        r.0@ == (EventModel::Profiled {
            host: label@,
            id: Some(id@),
            profile: profile@,
            role: role_under(filter, profile@),
            latency_us: Some(latency_us),
        }),
        r.1 == takes_part(filter, requirement, profile@),
{
    let role = match filter {
        None => Role::Compute,
        Some(filter) => filter.role_of(&profile),
    };
    let meets = match requirement {
        None => true,
        Some(predicate) => predicate.eval(&profile),
    };
    let event = Event::identified(label, id, profile, role, latency_us);
    (event, role == Role::Compute && meets)
}

/// What trying one host gave.
#[derive(Debug)]
pub enum HostReport {
    /// It could not be reached or probed, for this reason.
    Unreachable(String),
    /// It was reached and probed.
    Probed {
        /// The id of the machine behind it.
        id: String,
        /// Its capabilities.
        profile: NodeProfile,
        /// How long the probe took, in microseconds.
        latency_us: u64,
    },
}

/// A host that takes part in the run.
#[derive(Debug)]
pub struct Host {
    /// The number of its launcher.
    pub launcher: usize,
    /// Its label.
    pub label: String,
    /// The id of the machine behind it.
    pub id: String,
    /// The measured latency of the link to it, in microseconds.
    pub latency_us: u64,
}

/// A [`Host`] as a mathematical value.
pub struct HostModel {
    pub launcher: usize,
    pub label: Seq<char>,
    pub id: Seq<char>,
    pub latency_us: u64,
}

impl View for Host {
    type V = HostModel;

    open spec fn view(&self) -> HostModel {
        HostModel {
            launcher: self.launcher,
            label: self.label@,
            id: self.id@,
            latency_us: self.latency_us,
        }
    }
}

/// Each host in turn as a mathematical value.
pub open spec fn hosts(v: Seq<Host>) -> Seq<HostModel> {
    Seq::new(v.len(), |i: int| v[i]@)
}

/// What trying the hosts one after the other has given so far.
#[derive(Debug)]
pub struct Discovery {
    /// The job's own requirement.
    pub requirement: Option<Predicate>,
    /// The fleet's rule.
    pub filter: Option<Filter>,
    /// How many hosts have been tried.
    pub tried: usize,
    /// Those that take part.
    pub eligible: Vec<Host>,
    /// Why the unreachable ones dropped out.
    pub failures: Vec<String>,
    /// The launchers of the unreachable ones, to be tried again during the run.
    pub retry: Vec<usize>,
}

impl Discovery {
    /// Every tried host stands in at most one of the lists, in the order of trying.
    pub open spec fn wf(&self) -> bool {
        &&& self.failures@.len() == self.retry@.len()
        &&& self.eligible@.len() + self.retry@.len() <= self.tried
        &&& forall|i: int|
            0 <= i < self.eligible@.len() ==> (#[trigger] self.eligible@[i]).launcher < self.tried
        &&& forall|i: int|
            0 <= i < self.retry@.len() ==> (#[trigger] self.retry@[i]) < self.tried
        &&& forall|i: int, j: int|
            0 <= i < self.eligible@.len() && 0 <= j < self.retry@.len() ==> (
            #[trigger] self.eligible@[i]).launcher != (#[trigger] self.retry@[j])
        &&& forall|i: int, j: int|
            0 <= i < j < self.eligible@.len() ==> (#[trigger] self.eligible@[i]).launcher < (
            #[trigger] self.eligible@[j]).launcher
        &&& forall|i: int, j: int|
            0 <= i < j < self.retry@.len() ==> (#[trigger] self.retry@[i]) < (
            #[trigger] self.retry@[j])
    }

    /// Nothing tried yet.
    pub fn new(filter: Option<Filter>, requirement: Option<Predicate>) -> (r: Discovery)
        ensures
            r.wf(),
            r.filter == filter,
            r.requirement == requirement,
            r.tried == 0,
            r.eligible@.len() == 0,
            r.failures@.len() == 0,
            r.retry@.len() == 0,
    {
        Discovery {
            requirement,
            filter,
            tried: 0,
            eligible: Vec::new(),
            failures: Vec::new(),
            retry: Vec::new(),
        }
    }

    /// Fold in what trying the next host gave. An unreachable host is kept for
    /// another try; a probed one is announced and, if it takes part, kept with its
    /// open session. A host ruled out by its capabilities is dropped for good.
    pub fn on_host(&mut self, label: String, report: HostReport) -> (event: Option<Event>)
        requires
            old(self).wf(),
            old(self).tried < usize::MAX,
        ensures
            final(self).wf(),
            final(self).filter == old(self).filter,
            final(self).requirement == old(self).requirement,
            final(self).tried == old(self).tried + 1,
            match report {
                HostReport::Unreachable(why) => {
                    &&& event is None
                    &&& final(self).eligible@ == old(self).eligible@
                    &&& final(self).failures@ == old(self).failures@.push(why)
                    &&& final(self).retry@ == old(self).retry@.push(old(self).tried)
                },
                HostReport::Probed { id, profile, latency_us } => {
                    &&& event matches Some(e)
                    &&& e@ == (EventModel::Profiled {
                        host: label@,
                        id: Some(id@),
                        profile: profile@,
                        role: role_under(old(self).filter, profile@),
                        latency_us: Some(latency_us),
                    })
                    &&& final(self).failures@ == old(self).failures@
                    &&& final(self).retry@ == old(self).retry@
                    &&& if takes_part(old(self).filter, old(self).requirement, profile@) {
                        hosts(final(self).eligible@) == hosts(old(self).eligible@).push(
                            HostModel {
                                launcher: old(self).tried,
                                label: label@,
                                id: id@,
                                latency_us,
                            },
                        )
                    } else {
                        final(self).eligible@ == old(self).eligible@
                    }
                },
            },
    {
        let launcher: usize = self.tried;
        self.tried += 1;
        match report {
            HostReport::Unreachable(why) => {
                self.failures.push(why);
                self.retry.push(launcher);
                None
            },
            HostReport::Probed { id, profile, latency_us } => {
                let (event, joins) = assess(
                    label.as_str(),
                    id.as_str(),
                    profile,
                    latency_us,
                    self.filter,
                    self.requirement,
                );
                if joins {
                    let ghost before = self.eligible@;
                    let host = Host { launcher, label, id, latency_us };
                    self.eligible.push(host);
                    proof {
                        assert(hosts(self.eligible@) =~= hosts(before).push(host@));
                    }
                }
                Some(event)
            },
        }
    }
}

/// What provisioning the eligible hosts has brought up so far. The lists of those
/// brought up are parallel.
#[derive(Debug)]
pub struct Launched {
    /// Labels of the agents.
    pub labels: Vec<String>,
    /// Machine ids of the agents.
    pub ids: Vec<String>,
    /// Link latencies of the agents, in microseconds.
    pub latencies: Vec<u64>,
    /// Why hosts dropped out, in discovery and now.
    pub failures: Vec<String>,
}

impl Launched {
    /// The lists are parallel.
    pub open spec fn wf(&self) -> bool {
        &&& self.ids@.len() == self.labels@.len()
        &&& self.latencies@.len() == self.labels@.len()
    }

    /// Nothing brought up yet; `failures` are those of discovery.
    pub fn new(failures: Vec<String>) -> (r: Launched)
        ensures
            r.wf(),
            r.labels@.len() == 0,
            r.failures == failures,
    {
        Launched { labels: Vec::new(), ids: Vec::new(), latencies: Vec::new(), failures }
    }

    /// Fold in the activation of one host: it is brought up, or dropped with its
    /// reason kept.
    pub fn on_activation(&mut self, host: Host, result: Result<(), String>)
        requires
            old(self).wf(),
        ensures
            final(self).wf(),
            match result {
                Ok(_) => {
                    &&& final(self).labels@ == old(self).labels@.push(host.label)
                    &&& final(self).ids@ == old(self).ids@.push(host.id)
                    &&& final(self).latencies@ == old(self).latencies@.push(host.latency_us)
                    &&& final(self).failures == old(self).failures
                },
                Err(why) => {
                    &&& final(self).labels == old(self).labels
                    &&& final(self).ids == old(self).ids
                    &&& final(self).latencies == old(self).latencies
                    &&& final(self).failures@ == old(self).failures@.push(why)
                },
            },
    {
        match result {
            Ok(_) => {
                self.labels.push(host.label);
                self.ids.push(host.id);
                self.latencies.push(host.latency_us);
            },
            Err(why) => {
                self.failures.push(why);
            },
        }
    }

    /// Whether the run can start: it needs at least one agent. Without any, the
    /// message names why each candidate dropped out.
    pub fn ready(&self) -> (r: Result<(), String>)
        ensures
            self.labels@.len() > 0 ==> r is Ok,
            self.labels@.len() == 0 ==> (r matches Err(text) && text@ == no_host_text(
                texts(self.failures@),
            ) && text@
                == "rayonet: no eligible host (every host failed to launch or was filtered out): "@
                + joined(texts(self.failures@), "; "@)),
    {
        if self.labels.len() == 0 {
            Err(no_eligible_host(&self.failures))
        } else {
            Ok(())
        }
    }
}

/// The message of a run that no host takes part in.
pub open spec fn no_host_text(failures: Seq<Seq<char>>) -> Seq<char> {
    "rayonet: no eligible host (every host failed to launch or was filtered out): "@ + joined(
        failures,
        "; "@,
    )
}

/// The message of a run that no host takes part in, naming why each candidate
/// dropped out.
pub fn no_eligible_host(failures: &Vec<String>) -> (r: String)
    ensures
        r@ == no_host_text(texts(failures@)),
{
    let mut r =
        "rayonet: no eligible host (every host failed to launch or was filtered out): ".to_owned();
    let detail = join(failures, "; ");
    r.append(detail.as_str());
    r
}

/// How a host that was unreachable at launch is tried again.
#[derive(Debug, Clone, Copy, PartialEq, Eq, Structural)]
pub struct RejoinPolicy {
    /// Milliseconds between two rounds.
    pub backoff_ms: u64,
    /// Tries before the host is given up.
    pub max_attempts: usize,
}

/// The rejoin settings of a run.
pub fn rejoin_policy() -> (r: RejoinPolicy)
    ensures
        r.backoff_ms == 200,
        r.max_attempts == 150,
{
    RejoinPolicy { backoff_ms: 200, max_attempts: 150 }
}

/// How one try to bring a host into a running job ended.
#[derive(Debug, Clone, Copy, PartialEq, Eq, Structural)]
pub enum JoinAttempt {
    /// It came online and finished its handshake.
    Joined,
    /// It is still down.
    Retry,
    /// Its capabilities rule it out for good.
    GiveUp,
}

/// A host waiting to be tried again.
#[derive(Debug, Clone, Copy, PartialEq, Eq, Structural)]
pub struct Candidate {
    /// The number of its launcher.
    pub launcher: usize,
    /// Tries left.
    pub left: usize,
}

/// What rejoining does next.
#[derive(Debug, Clone, Copy, PartialEq, Eq, Structural)]
pub enum RejoinStep {
    /// Try the host of this launcher.
    Try(usize),
    /// Wait before the next round.
    Sleep,
    /// No host is left to try, or the run is over.
    Done,
}

/// The rounds in which unreachable hosts are tried again.
#[derive(Debug)]
pub struct Rejoin {
    /// The hosts of this round.
    pub pending: Vec<Candidate>,
    /// How many of them have been tried.
    pub at: usize,
    /// Those to try again in the next round.
    pub still: Vec<Candidate>,
}

/// How many tries a host can still get.
pub open spec fn tries(c: Candidate) -> nat {
    if c.left > 1 {
        c.left as nat
    } else {
        1
    }
}

/// How many tries the hosts from `from` on can still get.
pub open spec fn tries_from(v: Seq<Candidate>, from: int) -> nat
    decreases v.len() - from,
{
    if from < 0 || from >= v.len() {
        0
    } else {
        tries(v[from]) + tries_from(v, from + 1)
    }
}

proof fn lemma_tries_push(v: Seq<Candidate>, c: Candidate, from: int)
    requires
        0 <= from <= v.len(),
    ensures
        tries_from(v.push(c), from) == tries_from(v, from) + tries(c),
    decreases v.len() - from,
{
    if from < v.len() {
        lemma_tries_push(v, c, from + 1);
    } else {
        assert(tries_from(v.push(c), from + 1) == 0);
    }
}

proof fn lemma_tries_all(v: Seq<Candidate>, left: usize, from: int)
    requires
        0 <= from <= v.len(),
        forall|i: int| 0 <= i < v.len() ==> (#[trigger] v[i]).left == left,
    ensures
        tries_from(v, from) == (v.len() - from) * tries(Candidate { launcher: 0, left }),
    decreases v.len() - from,
{
    let one = tries(Candidate { launcher: 0, left });
    let rest = v.len() - from;
    if from < v.len() {
        lemma_tries_all(v, left, from + 1);
        assert(rest * one == (rest - 1) * one + one) by (nonlinear_arith);
    } else {
        assert(0 * one == 0) by (nonlinear_arith);
    }
}

impl Rejoin {
    /// The tries of a round do not run past its hosts.
    pub open spec fn wf(&self) -> bool {
        self.at <= self.pending@.len()
    }

    /// How many tries can still be made.
    pub open spec fn budget(&self) -> nat {
        tries_from(self.pending@, self.at as int) + tries_from(self.still@, 0)
    }

    /// Try each of `candidates` up to the policy's number of times.
    pub fn new(candidates: &Vec<usize>, policy: RejoinPolicy) -> (r: Rejoin)
        ensures
            r.wf(),
            r.at == 0,
            r.still@.len() == 0,
            r.pending@ == Seq::new(
                candidates@.len(),
                |i: int| Candidate { launcher: candidates@[i], left: policy.max_attempts },
            ),
            r.budget() == candidates@.len() * tries(
                Candidate { launcher: 0, left: policy.max_attempts },
            ),
    {
        let mut pending: Vec<Candidate> = Vec::new();
        let mut i: usize = 0;
        while i < candidates.len()
            invariant
                i <= candidates@.len(),
                pending@ =~= Seq::new(
                    i as nat,
                    |k: int| Candidate { launcher: candidates@[k], left: policy.max_attempts },
                ),
            decreases candidates@.len() - i,
        {
            pending.push(Candidate { launcher: candidates[i], left: policy.max_attempts });
            i += 1;
        }
        proof {
            lemma_tries_all(pending@, policy.max_attempts, 0);
        }
        Rejoin { pending, at: 0, still: Vec::new() }
    }

    /// What to do next. `closed` says that the run takes no more nodes, which is
    /// looked at between rounds only.
    pub fn next(&self, closed: bool) -> (r: RejoinStep)
        requires
            self.wf(),
        ensures
            r == if self.at < self.pending@.len() {
                if self.at == 0 && closed {
                    RejoinStep::Done
                } else {
                    RejoinStep::Try(self.pending@[self.at as int].launcher)
                }
            } else if self.still@.len() == 0 || closed {
                RejoinStep::Done
            } else {
                RejoinStep::Sleep
            },
    {
        if self.at < self.pending.len() {
            if self.at == 0 && closed {
                RejoinStep::Done
            } else {
                RejoinStep::Try(self.pending[self.at].launcher)
            }
        } else if self.still.len() == 0 || closed {
            RejoinStep::Done
        } else {
            RejoinStep::Sleep
        }
    }

    /// Fold in how the try just made ended: a host still down is tried again in the
    /// next round while it has tries left, any other leaves the list. Every try
    /// uses up some of the budget, so the rounds come to an end.
    pub fn on_attempt(&mut self, attempt: JoinAttempt)
        requires
            old(self).wf(),
            old(self).at < old(self).pending@.len(),
        ensures
            final(self).wf(),
            final(self).pending == old(self).pending,
            final(self).at == old(self).at + 1,
            ({
                let tried = old(self).pending@[old(self).at as int];
                final(self).still@ == if attempt == JoinAttempt::Retry && tried.left > 1 {
                    old(self).still@.push(
                        Candidate { launcher: tried.launcher, left: (tried.left - 1) as usize },
                    )
                } else {
                    old(self).still@
                }
            }),
            final(self).budget() < old(self).budget(),
    {
        let total: usize = self.pending.len();
        let tried = self.pending[self.at];
        assert(self.at < total);
        let ghost before = self.still@;
        if attempt == JoinAttempt::Retry && tried.left > 1 {
            let again = Candidate { launcher: tried.launcher, left: tried.left - 1 };
            self.still.push(again);
            proof {
                lemma_tries_push(before, again, 0);
            }
        }
        self.at += 1;
    }

    /// Begin the next round with the hosts still to be tried.
    pub fn next_round(&mut self)
        requires
            old(self).wf(),
            old(self).at == old(self).pending@.len(),
        ensures
            final(self).wf(),
            final(self).pending@ == old(self).still@,
            final(self).at == 0,
            final(self).still@.len() == 0,
            final(self).budget() == old(self).budget(),
    {
        let mut round: Vec<Candidate> = Vec::new();
        let ghost before = self.still@;
        round.append(&mut self.still);
        self.pending = round;
        self.at = 0;
        proof {
            assert(self.pending@ =~= before);
        }
    }
}

/// A pending distributed map: the task function, its inputs, and the job's own
/// settings.
#[derive(Debug)]
pub struct NetMap<F, I> {
    /// The task function.
    pub map: F,
    /// Its inputs.
    pub inputs: Vec<I>,
    /// What a host must meet to run this job's tasks.
    pub requirement: Option<Predicate>,
    /// Whether to refuse unless every machine has a redundant path.
    pub redundancy: bool,
    /// Whether an idle agent may race a straggler.
    pub racing: bool,
}

impl<F, I> NetMap<F, I> {
    /// A map with default settings.
    pub fn over(map: F, inputs: Vec<I>) -> (r: NetMap<F, I>)
        ensures
            r == (NetMap { map, inputs, requirement: None, redundancy: false, racing: false }),
    {
        NetMap { map, inputs, requirement: None, redundancy: false, racing: false }
    }

    /// Run this job only on hosts whose profile satisfies `predicate`.
    pub fn needing(self, predicate: Predicate) -> (r: NetMap<F, I>)
        ensures
            r == (NetMap { requirement: Some(predicate), ..self }),
    {
        NetMap { requirement: Some(predicate), ..self }
    }

    /// The map with redundancy required, and nothing else changed.
    pub open spec fn requiring_redundancy(self) -> NetMap<F, I> {
        NetMap { redundancy: true, ..self }
    }

    /// The map with racing allowed, and nothing else changed.
    pub open spec fn allowing_races(self) -> NetMap<F, I> {
        NetMap { racing: true, ..self }
    }

    /// Asking for redundancy or for racing again changes nothing, and the order of
    /// the two does not matter.
    pub proof fn law_asking_again_changes_nothing(self)
        ensures
            self.requiring_redundancy().requiring_redundancy() == self.requiring_redundancy(),
            self.allowing_races().allowing_races() == self.allowing_races(),
            self.requiring_redundancy().allowing_races()
                == self.allowing_races().requiring_redundancy(),
    {
    }

    /// Refuse to run if any machine is reachable through only one relay.
    pub fn require_redundancy(self) -> (r: NetMap<F, I>)
        ensures
            r == self.requiring_redundancy(),
            r == (NetMap { redundancy: true, ..self }),
    {
        NetMap { redundancy: true, ..self }
    }

    /// Let an idle agent re-run a straggler, the first result winning.
    pub fn speculative(self) -> (r: NetMap<F, I>)
        ensures
            r == self.allowing_races(),
            r == (NetMap { racing: true, ..self }),
    {
        NetMap { racing: true, ..self }
    }

    /// The settings of the run.
    pub fn options(&self) -> (r: RunOptions)
        ensures
            r.require_redundancy == self.redundancy,
            r.speculative == self.racing,
    {
        RunOptions { require_redundancy: self.redundancy, speculative: self.racing }
    }
}

/// The position of the first failed task, or the number of tasks.
pub open spec fn first_failure<O>(outputs: Seq<Result<O, String>>, from: int) -> int
    decreases outputs.len() - from,
{
    if from < 0 || from >= outputs.len() || outputs[from] is Err {
        from
    } else {
        first_failure(outputs, from + 1)
    }
}

/// Whether `accs` are the values a left fold with `op` goes through: `accs[0]` is
/// where it starts, and each next one is the last with one more output folded in,
/// beginning with output `from`.
pub open spec fn fold_trace<B, O, Op: Fn(B, O) -> B>(
    op: Op,
    outputs: Seq<Result<O, String>>,
    from: int,
    accs: Seq<B>,
) -> bool {
    forall|i: int|
        0 <= i < accs.len() - 1 ==> op.ensures(
            (#[trigger] accs[i], outputs[from + i]->Ok_0),
            accs[i + 1],
        )
}

proof fn lemma_first_failure<O>(outputs: Seq<Result<O, String>>, from: int, to: int)
    requires
        0 <= from <= to <= outputs.len(),
        forall|i: int| from <= i < to ==> (#[trigger] outputs[i]) is Ok,
    ensures
        first_failure(outputs, from) == first_failure(outputs, to),
    decreases to - from,
{
    if from < to {
        assert(outputs[from] is Ok);
        lemma_first_failure(outputs, from + 1, to);
    }
}

/// Fold the outputs into an accumulator in input order, starting from `init`. The
/// first failed task's message is returned instead if there is one.
pub fn fold_outputs<O, B, Op: Fn(B, O) -> B>(
    outputs: Vec<Result<O, String>>,
    init: B,
    op: Op,
) -> (r: Result<B, String>)
    requires
        forall|b: B, o: O| op.requires((b, o)),
    ensures
        match r {
            Err(why) => first_failure(outputs@, 0) < outputs@.len() && outputs@[first_failure(
                outputs@,
                0,
            )] == Err::<O, String>(why),
            Ok(value) => first_failure(outputs@, 0) == outputs@.len() && exists|accs: Seq<B>|
                accs.len() == outputs@.len() + 1 && accs[0] == init && accs.last() == value
                    && #[trigger] fold_trace(op, outputs@, 0, accs),
        },
{
    let ghost all = outputs@;
    let mut left = reversed(outputs);
    let mut acc = init;
    let ghost mut accs: Seq<B> = seq![init];
    while left.len() > 0
        invariant
            all == outputs@,
            left@.len() <= all.len(),
            left@ =~= Seq::new(left@.len(), |i: int| all[all.len() - 1 - i]),
            forall|b: B, o: O| op.requires((b, o)),
            accs.len() == all.len() - left@.len() + 1,
            accs[0] == init,
            accs.last() == acc,
            fold_trace(op, all, 0, accs),
            forall|i: int| 0 <= i < all.len() - left@.len() ==> (#[trigger] all[i]) is Ok,
        decreases left@.len(),
    {
        let ghost at = all.len() - left@.len();
        let next = left.pop().unwrap();
        assert(next == all[at]);
        match next {
            Err(why) => {
                proof {
                    lemma_first_failure(all, 0, at);
                }
                return Err(why);
            },
            Ok(output) => {
                let ghost before = acc;
                acc = op(acc, output);
                proof {
                    let longer = accs.push(acc);
                    assert forall|i: int| 0 <= i < longer.len() - 1 implies op.ensures(
                        (#[trigger] longer[i], all[0 + i]->Ok_0),
                        longer[i + 1],
                    ) by {
                        if i < accs.len() - 1 {
                            assert(longer[i] == accs[i] && longer[i + 1] == accs[i + 1]);
                        }
                    }
                    accs = longer;
                }
            },
        }
    }
    proof {
        lemma_first_failure(all, 0, all.len() as int);
        assert(fold_trace(op, all, 0, accs));
    }
    Ok(acc)
}

/// Fold the outputs into one value in input order: `None` if there were no tasks.
/// The first failed task's message is returned instead if there is one.
pub fn reduce_outputs<O, Op: Fn(O, O) -> O>(outputs: Vec<Result<O, String>>, op: Op) -> (r: Result<
    Option<O>,
    String,
>)
    requires
        forall|a: O, b: O| op.requires((a, b)),
    ensures
        match r {
            Err(why) => first_failure(outputs@, 0) < outputs@.len() && outputs@[first_failure(
                outputs@,
                0,
            )] == Err::<O, String>(why),
            Ok(None) => outputs@.len() == 0,
            Ok(Some(value)) => outputs@.len() > 0 && first_failure(outputs@, 0) == outputs@.len()
                && exists|accs: Seq<O>|
                accs.len() == outputs@.len() && accs[0] == outputs@[0]->Ok_0 && accs.last() == value
                    && #[trigger] fold_trace(op, outputs@, 1, accs),
        },
{
    let ghost all = outputs@;
    let mut left = reversed(outputs);
    if left.len() == 0 {
        return Ok(None);
    }
    let first = left.pop().unwrap();
    assert(first == all[0]);
    let mut acc = match first {
        Err(why) => {
            return Err(why);
        },
        Ok(output) => output,
    };
    let ghost mut accs: Seq<O> = seq![acc];
    while left.len() > 0
        invariant
            all == outputs@,
            left@.len() < all.len(),
            left@ =~= Seq::new(left@.len(), |i: int| all[all.len() - 1 - i]),
            forall|a: O, b: O| op.requires((a, b)),
            accs.len() == all.len() - left@.len(),
            accs[0] == all[0]->Ok_0,
            accs.last() == acc,
            fold_trace(op, all, 1, accs),
            forall|i: int| 0 <= i < all.len() - left@.len() ==> (#[trigger] all[i]) is Ok,
        decreases left@.len(),
    {
        let ghost at = all.len() - left@.len();
        let next = left.pop().unwrap();
        assert(next == all[at]);
        match next {
            Err(why) => {
                proof {
                    lemma_first_failure(all, 0, at);
                }
                return Err(why);
            },
            Ok(output) => {
                acc = op(acc, output);
                proof {
                    let longer = accs.push(acc);
                    assert forall|i: int| 0 <= i < longer.len() - 1 implies op.ensures(
                        (#[trigger] longer[i], all[1 + i]->Ok_0),
                        longer[i + 1],
                    ) by {
                        if i < accs.len() - 1 {
                            assert(longer[i] == accs[i] && longer[i + 1] == accs[i + 1]);
                        }
                    }
                    accs = longer;
                }
            },
        }
    }
    proof {
        lemma_first_failure(all, 0, all.len() as int);
        assert(fold_trace(op, all, 1, accs));
    }
    Ok(Some(acc))
}

/// The items in reverse order.
fn reversed<T>(items: Vec<T>) -> (r: Vec<T>)
    ensures
        r@ =~= Seq::new(items@.len(), |i: int| items@[items@.len() - 1 - i]),
{
    let ghost all = items@;
    let mut left = items;
    let mut r: Vec<T> = Vec::new();
    while left.len() > 0
        invariant
            left@.len() + r@.len() == all.len(),
            left@ =~= all.take(left@.len() as int),
            forall|i: int| 0 <= i < r@.len() ==> (#[trigger] r@[i]) == all[all.len() - 1 - i],
        decreases left@.len(),
    {
        let last = left.pop().unwrap();
        r.push(last);
    }
    r
}

/// Reducing is folding the remaining outputs into the first one.
pub proof fn law_reducing_is_folding_into_the_first<O, Op: Fn(O, O) -> O>(
    op: Op,
    outputs: Seq<Result<O, String>>,
    accs: Seq<O>,
)
    requires
        outputs.len() > 0,
        accs.len() == outputs.len(),
    ensures
        fold_trace(op, outputs, 1, accs) <==> fold_trace(op, outputs.skip(1), 0, accs),
{
    let rest = outputs.skip(1);
    assert forall|i: int| 0 <= i < accs.len() - 1 implies #[trigger] rest[0 + i] == outputs[1
        + i] by {}
    if fold_trace(op, outputs, 1, accs) {
        assert forall|i: int| 0 <= i < accs.len() - 1 implies op.ensures(
            (#[trigger] accs[i], rest[0 + i]->Ok_0),
            accs[i + 1],
        ) by {
            assert(rest[0 + i] == outputs[1 + i]);
        }
    }
    if fold_trace(op, rest, 0, accs) {
        assert forall|i: int| 0 <= i < accs.len() - 1 implies op.ensures(
            (#[trigger] accs[i], outputs[1 + i]->Ok_0),
            accs[i + 1],
        ) by {
            assert(rest[0 + i] == outputs[1 + i]);
        }
    }
}

/// A host takes part exactly if the fleet's filter, where there is one with a condition,
/// and the job's requirement, where there is one, are both met; its role goes by the
/// filter alone.
pub proof fn law_who_takes_part(
    filter: Option<Filter>,
    requirement: Option<Predicate>,
    profile: ProfileModel,
)
    ensures
        ({
            let admitted = match filter {
                None => true,
                Some(filter) => match filter.condition {
                    None => true,
                    Some(condition) => condition.holds(profile),
                },
            };
            let meets = match requirement {
                None => true,
                Some(predicate) => predicate.holds(profile),
            };
            &&& takes_part(filter, requirement, profile) <==> admitted && meets
            &&& admitted ==> role_under(filter, profile) == Role::Compute
            &&& !admitted ==> role_under(filter, profile) == Role::Excluded
        }),
{
}

/// The first failure is the earliest task that failed; without one there is none.
pub proof fn law_the_earliest_failure_counts<O>(outputs: Seq<Result<O, String>>, at: int)
    requires
        0 <= at <= outputs.len(),
        at < outputs.len() ==> outputs[at] is Err,
        forall|i: int| 0 <= i < at ==> (#[trigger] outputs[i]) is Ok,
    ensures
        first_failure(outputs, 0) == at,
{
    lemma_first_failure(outputs, 0, at);
}

/// Folding goes through the outputs in input order, each time with what was folded so
/// far first and the next output second.
pub proof fn law_folding_goes_in_order<B, O, Op: Fn(B, O) -> B>(
    op: Op,
    outputs: Seq<Result<O, String>>,
    from: int,
    accs: Seq<B>,
    i: int,
)
    requires
        fold_trace(op, outputs, from, accs),
        0 <= i < accs.len() - 1,
    ensures
        op.ensures((accs[i], outputs[from + i]->Ok_0), accs[i + 1]),
{
}

/// What a host stands for holds all that is known of it.
pub proof fn law_hosts_keep_their_contents(host: Host)
    ensures
        host@.launcher == host.launcher,
        host@.label == host.label@,
        host@.id == host.id@,
        host@.latency_us == host.latency_us,
{
}

} // verus!
