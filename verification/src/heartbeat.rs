//! How often a parent checks that its children are alive.
use vstd::prelude::*;

verus! {

/// The liveness settings a parent hands its children when it greets them. Times
/// are in nanoseconds.
#[derive(Debug, Clone, Copy, PartialEq, Eq, Structural)]
pub struct HeartbeatConfig {
    /// Time between two probes; zero switches the heartbeat off.
    pub interval: u64,
    /// Silence after which a peer counts as gone.
    pub timeout: u64,
}

impl HeartbeatConfig {
    /// Probe every `interval` and give a peer up after `timeout` of silence.
    pub fn new(interval: u64, timeout: u64) -> (r: HeartbeatConfig)
        ensures
            r.interval == interval,
            r.timeout == timeout,
    {
        HeartbeatConfig { interval, timeout }
    }

    /// Whether probes are sent at all.
    pub open spec fn enabled(self) -> bool {
        self.interval > 0
    }

    /// Whether probes are sent at all.
    pub fn is_enabled(&self) -> (r: bool)
        ensures
            r == self.enabled(),
            r == (self.interval != 0),
    {
        self.interval > 0
    }
}

/// Whether more than `timeout` has passed from `since` to `now`.
pub open spec fn silent_too_long(since: u64, now: u64, timeout: u64) -> bool {
    now - since > timeout
}

/// Whether more than `timeout` has passed from `since` to `now`. A clock that
/// reads earlier than `since` counts as no time at all.
pub fn timed_out(since: u64, now: u64, timeout: u64) -> (r: bool)
    ensures
        r == silent_too_long(since, now, timeout),
        r == (now - since > timeout),
{
    now > since && now - since > timeout
}

} // verus!
