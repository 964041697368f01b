//! Helpers for exercising a run: recording its events and severing its streams.
use vstd::prelude::*;

use crate::observability::{Event, EventModel, NodeState};

verus! {

/// Each event in turn as a mathematical value.
pub open spec fn event_models(v: Seq<Event>) -> Seq<EventModel> {
    Seq::new(v.len(), |i: int| v[i]@)
}

/// The node states among the first `n` events, in order.
pub open spec fn states_below(events: Seq<EventModel>, n: int) -> Seq<NodeState>
    decreases n,
{
    if n <= 0 {
        Seq::empty()
    } else {
        match events[n - 1] {
            EventModel::Node { state, .. } => states_below(events, n - 1).push(state),
            _ => states_below(events, n - 1),
        }
    }
}

/// Collects the events of a run.
#[derive(Debug)]
pub struct EventRecorder {
    recorded: Vec<Event>,
}

impl View for EventRecorder {
    type V = Seq<EventModel>;

    closed spec fn view(&self) -> Seq<EventModel> {
        event_models(self.recorded@)
    }
}

impl EventRecorder {
    /// Nothing recorded yet.
    pub fn new() -> (r: EventRecorder)
        ensures
            r@ == Seq::<EventModel>::empty(),
    {
        let r = EventRecorder { recorded: Vec::new() };
        proof {
            assert(r@ =~= Seq::<EventModel>::empty());
        }
        r
    }

    /// Record one event.
    pub fn record(&mut self, event: Event)
        ensures
            final(self)@ == old(self)@.push(event@),
    {
        self.recorded.push(event);
        proof {
            assert(self@ =~= old(self)@.push(event@));
        }
    }

    /// Every event recorded so far, in order.
    pub fn events(&self) -> (r: Vec<Event>)
        ensures
            event_models(r@) == self@,
    {
        let mut r: Vec<Event> = Vec::new();
        let mut i: usize = 0;
        while i < self.recorded.len()
            invariant
                i <= self.recorded@.len(),
                r@.len() == i,
                forall|j: int| 0 <= j < i ==> (#[trigger] r@[j])@ == self.recorded@[j]@,
            decreases self.recorded@.len() - i,
        {
            r.push(self.recorded[i].copy());
            i += 1;
        }
        proof {
            assert(event_models(r@) =~= self@);
        }
        r
    }

    /// Just the node states, in order.
    pub fn states(&self) -> (r: Vec<NodeState>)
        ensures
            r@ == states_below(self@, self@.len() as int),
    {
        let mut r: Vec<NodeState> = Vec::new();
        let mut i: usize = 0;
        while i < self.recorded.len()
            invariant
                i <= self.recorded@.len(),
                r@ == states_below(self@, i as int),
            decreases self.recorded@.len() - i,
        {
            assert(self@[i as int] == self.recorded@[i as int]@);
            match &self.recorded[i] {
                Event::Node { state, .. } => {
                    r.push(*state);
                },
                _ => {},
            }
            i += 1;
        }
        r
    }
}

impl Default for EventRecorder {
    fn default() -> (r: EventRecorder)
        ensures
            r@ == Seq::<EventModel>::empty(),
    {
        EventRecorder::new()
    }
}

/// How a severed read reports.
#[derive(Debug, Clone, Copy, PartialEq, Eq, Structural)]
pub enum OnCut {
    /// As a clean end of the stream.
    Eof,
    /// As an error.
    Error,
}

/// What the next read of a fault injector may do.
#[derive(Debug, Clone, Copy, PartialEq, Eq, Structural)]
pub enum ReadPlan {
    /// Report the end of the stream.
    Eof,
    /// Report an error.
    Fail,
    /// Read at most this many bytes.
    UpTo(usize),
}

/// Wraps a byte stream and severs its read side after a fixed number of bytes.
#[derive(Debug)]
pub struct FaultInjector<S> {
    /// The stream.
    pub inner: S,
    /// How many more bytes may be read.
    pub read_budget: usize,
    /// What happens once they have been.
    pub on_cut: OnCut,
}

impl<S> FaultInjector<S> {
    /// Allow `bytes` more bytes to be read, then end the stream.
    pub fn cut_reads_after(inner: S, bytes: usize) -> (r: FaultInjector<S>)
        ensures
            r == (FaultInjector { inner, read_budget: bytes, on_cut: OnCut::Eof }),
    {
        FaultInjector { inner, read_budget: bytes, on_cut: OnCut::Eof }
    }

    /// Allow `bytes` more bytes to be read, then fail every read.
    pub fn error_reads_after(inner: S, bytes: usize) -> (r: FaultInjector<S>)
        ensures
            r == (FaultInjector { inner, read_budget: bytes, on_cut: OnCut::Error }),
    {
        FaultInjector { inner, read_budget: bytes, on_cut: OnCut::Error }
    }

    /// What a read into a buffer with `room` free bytes may do.
    pub fn plan(&self, room: usize) -> (r: ReadPlan)
        ensures
            r == if self.read_budget > 0 {
                ReadPlan::UpTo(
                    if self.read_budget < room {
                        self.read_budget
                    } else {
                        room
                    },
                )
            } else if self.on_cut == OnCut::Eof {
                ReadPlan::Eof
            } else {
                ReadPlan::Fail
            },
    {
        if self.read_budget == 0 {
            return match self.on_cut {
                OnCut::Eof => ReadPlan::Eof,
                OnCut::Error => ReadPlan::Fail,
            };
        }
        if self.read_budget < room {
            ReadPlan::UpTo(self.read_budget)
        } else {
            ReadPlan::UpTo(room)
        }
    }

    /// Note that `bytes` were read.
    pub fn consumed(&mut self, bytes: usize)
        requires
            bytes <= old(self).read_budget,
        ensures
            final(self).read_budget == old(self).read_budget - bytes,
            final(self).inner == old(self).inner,
            final(self).on_cut == old(self).on_cut,
    {
        self.read_budget -= bytes;
    }
}

/// The states recorded are those of the node events, in order, and no others.
pub proof fn law_states_are_those_of_node_events(
    events: Seq<EventModel>,
    event: EventModel,
    host: Seq<char>,
    state: NodeState,
)
    ensures
        states_below(events, 0).len() == 0,
        states_below(
            events.push(EventModel::Node { host, state }),
            events.len() as int + 1,
        ) == states_below(events, events.len() as int).push(state),
        !(event is Node) ==> states_below(events.push(event), events.len() as int + 1)
            == states_below(events, events.len() as int),
{
    lemma_states_prefix(events, EventModel::Node { host, state }, events.len() as int);
    lemma_states_prefix(events, event, events.len() as int);
}

proof fn lemma_states_prefix(events: Seq<EventModel>, event: EventModel, n: int)
    requires
        0 <= n <= events.len(),
    ensures
        states_below(events.push(event), n) == states_below(events, n),
    decreases n,
{
    if n > 0 {
        lemma_states_prefix(events, event, n - 1);
    }
}

} // verus!
