//! The reconnection state machine: from the current state and what a connection
//! reported, to the next state and what to do next.
use vstd::prelude::*;
use crate::decoder::SseEvent;
use crate::policy::RetryPolicyType;

verus! {

/// Where a subscription stands.
#[derive(Clone, Copy, Debug, PartialEq, Eq, Structural)]
pub enum DriverState {
    /// A connection attempt is under way and has not opened yet.
    Connecting,
    /// The current connection has opened.
    Streaming,
    /// The subscription has ended; nothing more will be attempted.
    Terminated,
}

/// What one connection reports.
#[derive(Clone, Debug, PartialEq, Eq)]
pub enum Outcome {
    Open,
    Message(SseEvent),
    StreamError(String),
}

/// What the caller is to do next.
#[derive(Clone, Debug, PartialEq, Eq)]
pub enum Action {
    /// Nothing: keep reading the current connection, or stop if terminated.
    Ignore,
    /// Hand this event to the subscriber.
    Deliver(SseEvent),
    /// Close the connection, wait this many milliseconds, then connect again.
    Reconnect(u64),
    /// The subscription ends, with this last error.
    Terminate(String),
}

/// One more failed attempt, saturating at the largest counter value.
pub open spec fn next_count(attempts: usize) -> usize {
    if attempts < usize::MAX {
        (attempts + 1) as usize
    } else {
        attempts
    }
}

/// The reconnection driver: a retry policy and the count of failed attempts since
/// the last successful open.
#[derive(Clone, Copy, Debug, PartialEq, Eq, Structural)]
pub struct Driver {
    pub policy: RetryPolicyType,
    pub state: DriverState,
    pub attempts: usize,
}

/// The driver after `k` consecutive failed attempts.
pub open spec fn after_errors(d: Driver, k: nat) -> Driver
    decreases k,
{
    if k == 0 {
        d
    } else {
        after_errors(d, (k - 1) as nat).spec_on_error()
    }
}

impl Driver {
    /// A driver about to make its first attempt.
    pub open spec fn initial(policy: RetryPolicyType) -> Driver {
        Driver { policy, state: DriverState::Connecting, attempts: 0 }
    }

    /// The driver after a failed attempt: the counter grows, and the policy decides
    /// between another attempt and the end.
    pub open spec fn spec_on_error(self) -> Driver {
        if self.state == DriverState::Terminated {
            self
        } else {
            let n = next_count(self.attempts);
            match self.policy.spec_next_delay(n as nat) {
                Some(_) => Driver { state: DriverState::Connecting, attempts: n, ..self },
                None => Driver { state: DriverState::Terminated, attempts: n, ..self },
            }
        }
    }

    /// The next driver and the action for one outcome.
    pub open spec fn spec_step(self, o: Outcome) -> (Driver, Action) {
        if self.state == DriverState::Terminated {
            (self, Action::Ignore)
        } else {
            match o {
                Outcome::Open => (
                    Driver { state: DriverState::Streaming, attempts: 0, ..self },
                    Action::Ignore,
                ),
                Outcome::Message(e) => (self, Action::Deliver(e)),
                Outcome::StreamError(err) => {
                    let n = next_count(self.attempts);
                    (
                        self.spec_on_error(),
                        match self.policy.spec_next_delay(n as nat) {
                            Some(d) => Action::Reconnect(d as u64),
                            None => Action::Terminate(err),
                        },
                    )
                },
            }
        }
    }

    /// A driver for `policy`, about to make its first attempt.
    pub fn new(policy: RetryPolicyType) -> (r: Driver)
        ensures
            r == Driver::initial(policy),
    {
        Driver { policy, state: DriverState::Connecting, attempts: 0 }
    }

    /// Takes one outcome of the current connection and says what to do next.
    pub fn on_outcome(&mut self, o: Outcome) -> (r: Action)
        ensures
            (*final(self), r) == old(self).spec_step(o),
    {
        if self.state == DriverState::Terminated {
            return Action::Ignore;
        }
        match o {
            Outcome::Open => {
                self.state = DriverState::Streaming;
                self.attempts = 0;
                Action::Ignore
            },
            Outcome::Message(e) => Action::Deliver(e),
            Outcome::StreamError(err) => {
                let n = if self.attempts < usize::MAX {
                    self.attempts + 1
                } else {
                    self.attempts
                };
                self.attempts = n;
                match self.policy.next_delay(n) {
                    crate::policy::RetryDecision::Retry(d) => {
                        self.state = DriverState::Connecting;
                        Action::Reconnect(d)
                    },
                    crate::policy::RetryDecision::Stop => {
                        self.state = DriverState::Terminated;
                        Action::Terminate(err)
                    },
                }
            },
        }
    }

    /// Ends the subscription at once, whatever it was doing.
    pub fn cancel(&mut self)
        ensures
            *final(self) == (Driver { state: DriverState::Terminated, ..*old(self) }),
    {
        self.state = DriverState::Terminated;
    }

    /// Whether the subscription has ended.
    pub fn is_terminated(&self) -> (r: bool)
        ensures
            r == (self.state == DriverState::Terminated),
    {
        self.state == DriverState::Terminated
    }
}

/// Once ended, a subscription stays ended: every outcome leaves it as it is, and
/// asks for nothing, in particular for no new attempt.
pub proof fn lemma_terminated_is_final(d: Driver, o: Outcome)
    requires
        d.state == DriverState::Terminated,
    ensures
        d.spec_step(o) == (d, Action::Ignore),
        d.spec_on_error() == d,
{
}

/// Only failures and cancellation move a live subscription back or end it: an
/// event leaves the driver as it is and is handed on unchanged, so a streaming
/// connection stays streaming for as long as it yields events or nothing.
pub proof fn lemma_messages_keep_state(d: Driver, e: SseEvent)
    requires
        d.state != DriverState::Terminated,
    ensures
        d.spec_step(Outcome::Message(e)) == (d, Action::Deliver(e)),
{
}

/// With a constant policy capped at `n` retries, and nothing but failures, the
/// first `n` failures each lead to another attempt and the next one ends the
/// subscription: `n + 1` attempts in all.
pub proof fn lemma_constant_policy_attempts(delay_ms: u64, n: usize)
    requires
        n < usize::MAX,
    ensures
        forall|k: nat|
            k <= n ==> #[trigger] after_errors(
                Driver::initial(
                    RetryPolicyType::Constant(
                        crate::policy::Constant { delay_ms, max_retries: Some(n) },
                    ),
                ),
                k,
            ).state == DriverState::Connecting,
        after_errors(
            Driver::initial(
                RetryPolicyType::Constant(crate::policy::Constant { delay_ms, max_retries: Some(n) }),
            ),
            n as nat + 1,
        ).state == DriverState::Terminated,
{
    let d0 = Driver::initial(
        RetryPolicyType::Constant(crate::policy::Constant { delay_ms, max_retries: Some(n) }),
    );
    assert forall|k: nat| k <= n implies #[trigger] after_errors(d0, k).state
        == DriverState::Connecting && after_errors(d0, k).attempts == k && after_errors(d0, k).policy
        == d0.policy by {
        lemma_constant_prefix(d0, delay_ms, n, k);
    }
    lemma_constant_prefix(d0, delay_ms, n, n as nat);
}

proof fn lemma_constant_prefix(d0: Driver, delay_ms: u64, n: usize, k: nat)
    requires
        n < usize::MAX,
        k <= n,
        d0 == Driver::initial(
            RetryPolicyType::Constant(crate::policy::Constant { delay_ms, max_retries: Some(n) }),
        ),
    ensures
        after_errors(d0, k).state == DriverState::Connecting,
        after_errors(d0, k).attempts == k,
        after_errors(d0, k).policy == d0.policy,
    decreases k,
{
    if k > 0 {
        lemma_constant_prefix(d0, delay_ms, n, (k - 1) as nat);
    }
}

/// With the never policy, the first failure ends the subscription, whether or not
/// the connection had opened, and no wait or new attempt is asked for.
pub proof fn lemma_never_policy_single_attempt(d: Driver, err: String)
    requires
        d.policy is Never,
        d.state != DriverState::Terminated,
    ensures
        d.spec_step(Outcome::StreamError(err)).0.state == DriverState::Terminated,
        d.spec_step(Outcome::StreamError(err)).1 == Action::Terminate(err),
{
}

} // verus!
