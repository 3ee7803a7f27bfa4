//! The accept loop of the static-file server as a state machine: a limit
//! on open connections, and a graceful shutdown that stops accepting and
//! waits for the open connections to finish.
use vstd::prelude::*;

verus! {

/// What happened to the accept loop.
#[derive(Clone, Copy, Debug)]
pub enum LoopEvent {
    /// A connection was accepted.
    Accepted,
    /// Accepting a connection failed.
    AcceptFailed,
    /// Shutdown was requested.
    ShutdownRequested,
    /// A connection was closed and its task ended.
    ConnectionClosed,
}

/// What the accept loop does next.
#[derive(Clone, Copy, Debug, PartialEq, Eq)]
pub enum LoopAction {
    /// Serve the connection just accepted.
    Serve,
    /// Keep the connection just accepted until a slot frees up; accept
    /// nothing meanwhile.
    Hold,
    /// Serve the connection that was held, in the slot just freed.
    ServeHeld,
    /// Close the connection just accepted without serving it: shutdown
    /// has begun.
    Close,
    /// Go on waiting for events.
    Continue,
    /// Every connection has finished after shutdown: stop.
    Stop,
}

/// The accept loop's state, as values.
pub struct LoopState {
    pub limit: nat,
    pub active: nat,
    pub holding: bool,
    pub draining: bool,
}

/// The next state and the action for an event.
pub open spec fn loop_step(s: LoopState, e: LoopEvent) -> (LoopState, LoopAction) {
    match e {
        LoopEvent::Accepted => if s.draining {
            (s, LoopAction::Close)
        } else if s.active < s.limit {
            (LoopState { active: s.active + 1, ..s }, LoopAction::Serve)
        } else {
            (LoopState { holding: true, ..s }, LoopAction::Hold)
        },
        LoopEvent::AcceptFailed => (s, LoopAction::Continue),
        LoopEvent::ShutdownRequested => {
            let t = LoopState { draining: true, ..s };
            if s.active == 0 && !s.holding {
                (t, LoopAction::Stop)
            } else {
                (t, LoopAction::Continue)
            }
        },
        LoopEvent::ConnectionClosed => if s.holding {
            (LoopState { holding: false, ..s }, LoopAction::ServeHeld)
        } else if s.active == 0 {
            (s, LoopAction::Continue)
        } else {
            let t = LoopState { active: (s.active - 1) as nat, ..s };
            if s.draining && t.active == 0 {
                (t, LoopAction::Stop)
            } else {
                (t, LoopAction::Continue)
            }
        },
    }
}

/// The accept loop of a server that serves at most `limit` connections
/// at once.
pub struct ServeLoop {
    limit: usize,
    active: usize,
    holding: bool,
    draining: bool,
}

impl View for ServeLoop {
    type V = LoopState;

    closed spec fn view(&self) -> LoopState {
        LoopState {
            limit: self.limit as nat,
            active: self.active as nat,
            holding: self.holding,
            draining: self.draining,
        }
    }
}

impl ServeLoop {
    /// The open connections never exceed the limit.
    #[verifier::type_invariant]
    spec fn within_limit(self) -> bool {
        self.active <= self.limit
    }

    /// A loop that accepts connections, none open yet.
    pub fn new(limit: usize) -> (r: ServeLoop)
        ensures
            r@ == (LoopState { limit: limit as nat, active: 0, holding: false, draining: false }),
    {
        ServeLoop { limit, active: 0, holding: false, draining: false }
    }

    /// Whether the loop still accepts connections: it is neither holding a
    /// connection nor shutting down.
    pub fn accepting(&self) -> (r: bool)
        ensures
            r == (!self@.holding && !self@.draining),
    {
        !self.holding && !self.draining
    }

    /// The number of connections being served.
    pub fn active(&self) -> (r: usize)
        ensures
            r == self@.active,
    {
        self.active
    }

    /// Takes one event and says what to do.
    pub fn step(&mut self, e: LoopEvent) -> (a: LoopAction)
        ensures
            (final(self)@, a) == loop_step(old(self)@, e),
    {
        proof {
            use_type_invariant(&*self);
        }
        match e {
            LoopEvent::Accepted => {
                if self.draining {
                    LoopAction::Close
                } else if self.active < self.limit {
                    self.active = self.active + 1;
                    LoopAction::Serve
                } else {
                    self.holding = true;
                    LoopAction::Hold
                }
            },
            LoopEvent::AcceptFailed => LoopAction::Continue,
            LoopEvent::ShutdownRequested => {
                self.draining = true;
                if self.active == 0 && !self.holding {
                    LoopAction::Stop
                } else {
                    LoopAction::Continue
                }
            },
            LoopEvent::ConnectionClosed => {
                if self.holding {
                    self.holding = false;
                    LoopAction::ServeHeld
                } else if self.active == 0 {
                    LoopAction::Continue
                } else {
                    self.active = self.active - 1;
                    if self.draining && self.active == 0 {
                        LoopAction::Stop
                    } else {
                        LoopAction::Continue
                    }
                }
            },
        }
    }
}

/// Once shutdown has been requested, the loop stays in shutdown and never
/// starts serving a newly accepted connection.
pub proof fn lemma_no_new_connection_after_shutdown(s: LoopState, e: LoopEvent)
    requires
        s.draining,
    ensures
        loop_step(s, e).0.draining,
        loop_step(s, e).1 != LoopAction::Serve,
        loop_step(s, e).1 != LoopAction::Hold,
{
}

/// The number of connections being served never exceeds the limit.
pub proof fn lemma_active_within_limit(s: LoopState, e: LoopEvent)
    requires
        s.active <= s.limit,
    ensures
        loop_step(s, e).0.active <= loop_step(s, e).0.limit,
        loop_step(s, e).0.limit == s.limit,
{
}

/// The loop stops only after shutdown was requested, with no connection
/// left open or held.
pub proof fn lemma_stop_only_when_drained(s: LoopState, e: LoopEvent)
    ensures
        loop_step(s, e).1 == LoopAction::Stop ==> loop_step(s, e).0.draining && loop_step(s, e).0.active
            == 0 && !loop_step(s, e).0.holding,
{
}

} // verus!
