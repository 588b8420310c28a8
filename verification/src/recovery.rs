use vstd::prelude::*;

verus! {

/// Nanoseconds in one second; times are nanoseconds on a monotonic clock.
pub const NANOS_PER_SECOND: u64 = 1000000000;

/// How capture is doing.
#[derive(Debug, Clone, PartialEq, Eq)]
pub enum CaptureHealth {
    Running,
    NoSignal(String),
    DeviceDisconnected(String),
    Reconnecting { attempt: u32, at: u64 },
}

/// Tracks capture failures and spaces out reconnection attempts.
#[derive(Debug, Clone)]
pub struct RecoveryController {
    pub state: CaptureHealth,
    attempts: u32,
}

/// Seconds to wait before reconnection attempt `attempt`: doubling from one
/// second, at most sixteen.
pub open spec fn retry_delay_secs(attempt: u32) -> u64 {
    if attempt >= 4 {
        16
    } else if attempt == 3 {
        8
    } else if attempt == 2 {
        4
    } else if attempt == 1 {
        2
    } else {
        1
    }
}

/// The attempt number after one more attempt (it stops at `u32::MAX`).
pub open spec fn next_attempt(attempts: u32) -> u32 {
    if attempts == u32::MAX { u32::MAX } else { (attempts + 1) as u32 }
}

impl RecoveryController {
    /// Failed attempts since capture last ran.
    pub closed spec fn attempts(&self) -> u32 {
        self.attempts
    }

    /// The public `state` field. Outside this module, specifications cannot
    /// read the fields of a struct with a private field, so contracts speak of
    /// `state` by this name.
    pub closed spec fn health(&self) -> CaptureHealth {
        self.state
    }

    /// The current health, as in the public `state` field.
    pub fn current(&self) -> (r: &CaptureHealth)
        ensures
            *r == self.health(),
    {
        &self.state
    }

    pub fn new() -> (r: Self)
        ensures
            r.health() == CaptureHealth::Running,
            r.attempts() == 0,
    {
        RecoveryController { state: CaptureHealth::Running, attempts: 0 }
    }

    pub fn signal_lost(&mut self, message: String)
        ensures
            final(self).health() == CaptureHealth::NoSignal(message),
            final(self).attempts() == old(self).attempts(),
    {
        self.state = CaptureHealth::NoSignal(message);
    }

    pub fn disconnected(&mut self, message: String)
        ensures
            final(self).health() == CaptureHealth::DeviceDisconnected(message),
            final(self).attempts() == old(self).attempts(),
    {
        self.state = CaptureHealth::DeviceDisconnected(message);
    }

    /// Counts one more attempt and returns when it is due: 2, 4, 8, then
    /// every 16 seconds after `now`.
    pub fn schedule_retry(&mut self, now: u64) -> (at: u64)
        requires
            now + retry_delay_secs(next_attempt(old(self).attempts())) * NANOS_PER_SECOND <= u64::MAX,
        ensures
            final(self).attempts() == next_attempt(old(self).attempts()),
            at == now + retry_delay_secs(final(self).attempts()) * NANOS_PER_SECOND,
            final(self).health() == (CaptureHealth::Reconnecting { attempt: final(self).attempts(), at }),
    {
        self.attempts = if self.attempts == u32::MAX { u32::MAX } else { self.attempts + 1 };
        let seconds: u64 = if self.attempts >= 4 {
            16
        } else if self.attempts == 3 {
            8
        } else if self.attempts == 2 {
            4
        } else if self.attempts == 1 {
            2
        } else {
            1
        };
        let at = now + seconds * NANOS_PER_SECOND;
        self.state = CaptureHealth::Reconnecting { attempt: self.attempts, at };
        at
    }

    pub fn recovered(&mut self)
        ensures
            final(self).attempts() == 0,
            final(self).health() == CaptureHealth::Running,
    {
        self.attempts = 0;
        self.state = CaptureHealth::Running;
    }
}

impl Default for RecoveryController {
    fn default() -> (r: Self)
        ensures
            r.health() == CaptureHealth::Running,
            r.attempts() == 0,
    {
        RecoveryController::new()
    }
}

/// Reconnection delays double from two seconds with each failed attempt and
/// never exceed sixteen seconds; after recovery the next attempt waits two
/// seconds again.
pub proof fn lemma_backoff(attempts: u32)
    ensures
        retry_delay_secs(next_attempt(0)) == 2,
        retry_delay_secs(attempts) <= 16,
        1 <= attempts < 4 ==> retry_delay_secs(next_attempt(attempts)) == 2 * retry_delay_secs(attempts),
        attempts >= 4 ==> retry_delay_secs(next_attempt(attempts)) == 16,
{
}

} // verus!
