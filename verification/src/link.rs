//! The state of the link to the anomaly-scoring service and the schedule it
//! reconnects by: after a lost or failed connection it waits, starting at
//! half a second and doubling up to thirty seconds, and a successful
//! connection starts the schedule over.
use vstd::prelude::*;

use crate::text::push_str;

verus! {

pub const INITIAL_BACKOFF_MS: u64 = 500;
pub const MAX_BACKOFF_MS: u64 = 30_000;

#[derive(Debug, Clone, Copy, PartialEq, Eq, Structural)]
pub enum LinkState {
    Disconnected,
    Connecting,
    Connected,
}

impl LinkState {
    pub open spec fn value_spec(self) -> u8 {
        match self {
            LinkState::Disconnected => 0,
            LinkState::Connecting => 1,
            LinkState::Connected => 2,
        }
    }

    pub fn value(&self) -> (v: u8)
        ensures
            v == self.value_spec(),
    {
        match self {
            LinkState::Disconnected => 0,
            LinkState::Connecting => 1,
            LinkState::Connected => 2,
        }
    }

    /// The state stored as `v`: 1 connecting, 2 connected, anything else
    /// disconnected.
    pub fn from_u8(v: u8) -> (s: Self)
        ensures
            s == if v == 1 {
                LinkState::Connecting
            } else if v == 2 {
                LinkState::Connected
            } else {
                LinkState::Disconnected
            },
    {
        match v {
            1 => LinkState::Connecting,
            2 => LinkState::Connected,
            _ => LinkState::Disconnected,
        }
    }
}

/// A state survives being stored as its number.
pub proof fn lemma_state_value_roundtrip(s: LinkState)
    ensures
        s.value_spec() == 1 ==> s == LinkState::Connecting,
        s.value_spec() == 2 ==> s == LinkState::Connected,
        s.value_spec() != 1 && s.value_spec() != 2 ==> s == LinkState::Disconnected,
{
}

/// Why the link could not start.
#[derive(Debug, Clone, PartialEq, Eq)]
pub enum LinkError {
    /// The endpoint is not a valid URI (the parser's message).
    BadEndpoint(String),
    /// The link's runtime could not start (the I/O error's message).
    Runtime(String),
}

impl LinkError {
    pub fn describe(&self) -> (s: String)
        ensures
            s@ == match self {
                LinkError::BadEndpoint(e) => "invalid analytics endpoint: "@ + e@,
                LinkError::Runtime(e) => "cannot start analytics runtime: "@ + e@,
            },
    {
        let mut s = String::new();
        match self {
            LinkError::BadEndpoint(e) => {
                push_str(&mut s, "invalid analytics endpoint: ");
                push_str(&mut s, e.as_str());
            },
            LinkError::Runtime(e) => {
                push_str(&mut s, "cannot start analytics runtime: ");
                push_str(&mut s, e.as_str());
            },
        }
        s
    }
}

/// The wait after `ms`: twice as long, at most `MAX_BACKOFF_MS`.
pub open spec fn next_backoff_spec(ms: u64) -> u64 {
    if ms * 2 > MAX_BACKOFF_MS { MAX_BACKOFF_MS } else { (ms * 2) as u64 }
}

pub fn next_backoff(ms: u64) -> (n: u64)
    requires
        ms <= MAX_BACKOFF_MS,
    ensures
        n == next_backoff_spec(ms),
{
    if ms * 2 > MAX_BACKOFF_MS { MAX_BACKOFF_MS } else { ms * 2 }
}

/// What the link learned since its last action.
#[derive(Debug, Clone, Copy, PartialEq, Eq, Structural)]
pub enum LinkEvent {
    ConnectSucceeded,
    ConnectFailed,
    /// The stream to the service ended or failed.
    StreamLost,
    WaitElapsed,
    /// The link is being shut down.
    ShutDown,
}

/// What the link does next.
#[derive(Debug, Clone, Copy, PartialEq, Eq, Structural)]
pub enum LinkAction {
    Connect,
    Stream,
    /// Wait this many milliseconds, then report `WaitElapsed`.
    Wait(u64),
    Stop,
}

/// The reconnecting link: its state, the next wait, how often it lost or
/// failed to get a connection, and whether it has stopped.
#[derive(Debug, Clone, Copy, PartialEq, Eq, Structural)]
pub struct LinkMachine {
    pub state: LinkState,
    pub backoff_ms: u64,
    pub reconnects: u64,
    pub stopped: bool,
}

impl LinkMachine {
    pub open spec fn wf(self) -> bool {
        INITIAL_BACKOFF_MS <= self.backoff_ms <= MAX_BACKOFF_MS
    }

    /// A link about to connect for the first time.
    pub fn start() -> (r: (Self, LinkAction))
        ensures
            r.0.wf(),
            r.0 == (LinkMachine {
                state: LinkState::Connecting,
                backoff_ms: INITIAL_BACKOFF_MS,
                reconnects: 0,
                stopped: false,
            }),
            r.1 == LinkAction::Connect,
    {
        (LinkMachine { state: LinkState::Connecting, backoff_ms: INITIAL_BACKOFF_MS, reconnects: 0, stopped: false }, LinkAction::Connect)
    }

    pub open spec fn step_spec(self, e: LinkEvent) -> (LinkMachine, LinkAction) {
        if self.stopped {
            (self, LinkAction::Stop)
        } else {
            match e {
                LinkEvent::ConnectSucceeded => (
                    LinkMachine { state: LinkState::Connected, backoff_ms: INITIAL_BACKOFF_MS, ..self },
                    LinkAction::Stream,
                ),
                LinkEvent::ConnectFailed | LinkEvent::StreamLost => (
                    LinkMachine {
                        state: LinkState::Disconnected,
                        reconnects: self.reconnects.wrapping_add(1),
                        ..self
                    },
                    LinkAction::Wait(self.backoff_ms),
                ),
                LinkEvent::WaitElapsed => (
                    LinkMachine {
                        state: LinkState::Connecting,
                        backoff_ms: next_backoff_spec(self.backoff_ms),
                        ..self
                    },
                    LinkAction::Connect,
                ),
                LinkEvent::ShutDown => (
                    LinkMachine { state: LinkState::Disconnected, stopped: true, ..self },
                    LinkAction::Stop,
                ),
            }
        }
    }

    /// The next state and action after event `e`: a connection streams and
    /// starts the waits over; a failure or loss disconnects, counts a
    /// reconnect and waits; a wait that elapsed doubles the next wait and
    /// connects again; a shutdown disconnects and stops for good.
    pub fn step(&self, e: LinkEvent) -> (r: (Self, LinkAction))
        requires
            self.wf(),
        ensures
            r == self.step_spec(e),
            r.0.wf(),
    {
        if self.stopped {
            return (*self, LinkAction::Stop);
        }
        match e {
            LinkEvent::ConnectSucceeded => (
                LinkMachine { state: LinkState::Connected, backoff_ms: INITIAL_BACKOFF_MS, ..*self },
                LinkAction::Stream,
            ),
            LinkEvent::ConnectFailed | LinkEvent::StreamLost => (
                LinkMachine { state: LinkState::Disconnected, reconnects: self.reconnects.wrapping_add(1), ..*self },
                LinkAction::Wait(self.backoff_ms),
            ),
            LinkEvent::WaitElapsed => (
                LinkMachine { state: LinkState::Connecting, backoff_ms: next_backoff(self.backoff_ms), ..*self },
                LinkAction::Connect,
            ),
            LinkEvent::ShutDown => (
                LinkMachine { state: LinkState::Disconnected, stopped: true, ..*self },
                LinkAction::Stop,
            ),
        }
    }
}

/// What the link counts of the batches offered to it: those it sent to the
/// service and those it dropped (both wrap around at 2^64).
#[derive(Debug, Clone, Copy, PartialEq, Eq, Structural)]
pub struct BatchCounts {
    pub sent: u64,
    pub dropped: u64,
}

impl BatchCounts {
    pub fn new() -> (c: Self)
        ensures
            c == (BatchCounts { sent: 0, dropped: 0 }),
    {
        BatchCounts { sent: 0, dropped: 0 }
    }

    /// A batch offered while the link is in `state`, with `queued` whether
    /// the queue to the stream took it (asked only while connected): it is
    /// accepted only while connected and queued, and counted as dropped
    /// otherwise.
    pub fn offer(&mut self, state: LinkState, queued: bool) -> (accepted: bool)
        ensures
            accepted == (state == LinkState::Connected && queued),
            final(self).sent == old(self).sent,
            final(self).dropped == if accepted {
                old(self).dropped
            } else {
                old(self).dropped.wrapping_add(1)
            },
    {
        let accepted = state == LinkState::Connected && queued;
        if !accepted {
            self.dropped = self.dropped.wrapping_add(1);
        }
        accepted
    }

    /// A batch went out on the stream.
    pub fn forwarded(&mut self)
        ensures
            final(self).sent == old(self).sent.wrapping_add(1),
            final(self).dropped == old(self).dropped,
    {
        self.sent = self.sent.wrapping_add(1);
    }

    /// A batch came while the link waited to reconnect, and was dropped.
    pub fn dropped_while_waiting(&mut self)
        ensures
            final(self).sent == old(self).sent,
            final(self).dropped == old(self).dropped.wrapping_add(1),
    {
        self.dropped = self.dropped.wrapping_add(1);
    }
}

/// Waits never leave half a second to thirty seconds, never shrink except
/// back to the start after a connection, and a stopped link stays stopped.
pub proof fn lemma_backoff_bounds(m: LinkMachine, e: LinkEvent)
    requires
        m.wf(),
    ensures
        m.step_spec(e).0.wf(),
        e != LinkEvent::ConnectSucceeded ==> m.step_spec(e).0.backoff_ms >= m.backoff_ms,
        m.stopped ==> m.step_spec(e) == (m, LinkAction::Stop),
        m.step_spec(e).1 matches LinkAction::Wait(ms) ==> INITIAL_BACKOFF_MS <= ms <= MAX_BACKOFF_MS,
{
}

} // verus!
