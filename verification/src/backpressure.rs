//! Backpressure for logical streams: the settings of a byte-rate limiter
//! (its rate and whether it is paused), and the decisions taken while a
//! sender waits for permission to send a number of bytes.
use vstd::prelude::*;

verus! {

/// The settings of a byte-rate limiter. A rate of zero means that rate
/// limiting is off.
#[derive(Clone, Copy, Debug, PartialEq, Eq, Structural)]
pub struct RateLimiterState {
    /// The most bytes per second; zero when rate limiting is off.
    pub max_rate: u32,
    /// Whether senders must wait until the limiter is resumed.
    pub paused: bool,
}

/// The rate that the token bucket is built with for a configured rate: the
/// configured rate, or the largest rate where limiting is off.
pub open spec fn bucket_rate(max_rate: u32) -> u32 {
    if max_rate == 0 {
        u32::MAX
    } else {
        max_rate
    }
}

impl RateLimiterState {
    /// A running limiter with the given rate (zero: no limit).
    pub fn new(max_rate: u32) -> (s: Self)
        ensures
            s.max_rate == max_rate,
            !s.paused,
    {
        RateLimiterState { max_rate, paused: false }
    }

    /// Changes the rate (zero: no limit); pausing is unaffected.
    pub fn set_rate(&mut self, max_rate: u32)
        ensures
            final(self).max_rate == max_rate,
            final(self).paused == old(self).paused,
    {
        self.max_rate = max_rate;
    }

    /// The configured rate; zero means that rate limiting is off.
    pub fn get_rate(&self) -> (r: u32)
        ensures
            r == self.max_rate,
    {
        self.max_rate
    }

    /// Pauses the limiter; the rate is unaffected.
    pub fn pause(&mut self)
        ensures
            final(self).paused,
            final(self).max_rate == old(self).max_rate,
    {
        self.paused = true;
    }

    /// Resumes the limiter; the rate is unaffected.
    pub fn resume(&mut self)
        ensures
            !final(self).paused,
            final(self).max_rate == old(self).max_rate,
    {
        self.paused = false;
    }

    /// Whether the limiter is paused.
    pub fn is_paused(&self) -> (b: bool)
        ensures
            b == self.paused,
    {
        self.paused
    }

    /// The rate, in bytes per second, that the token bucket is built with.
    /// It is never zero.
    pub fn bucket_rate(&self) -> (r: u32)
        ensures
            r == bucket_rate(self.max_rate),
            r > 0,
    {
        if self.max_rate == 0 {
            u32::MAX
        } else {
            self.max_rate
        }
    }
}

/// What the token bucket answered when asked for a number of bytes.
#[derive(Clone, Copy, Debug, PartialEq, Eq, Structural)]
pub enum TokenCheck {
    /// The bytes were granted.
    Granted,
    /// Not yet: the bytes can be granted after this many nanoseconds.
    RetryAfter(u128),
    /// More bytes were asked for than the bucket can ever hold.
    InsufficientCapacity,
}

/// Where a sender waiting for permission stands.
#[derive(Clone, Copy, Debug, PartialEq, Eq, Structural)]
pub enum WaitStage {
    /// Waiting for the limiter to be running before anything else.
    Gate,
    /// Asking the token bucket for the bytes.
    Acquire,
    /// Slept after a refusal; waits for the limiter to be running again.
    Recheck,
    /// Permission was given.
    Done,
}

/// What a waiting sender learns.
#[derive(Clone, Copy, Debug, PartialEq, Eq, Structural)]
pub enum WaitEvent {
    /// The limiter's current settings.
    Observed(RateLimiterState),
    /// The token bucket's answer.
    Checked(TokenCheck),
}

/// What a waiting sender does next.
#[derive(Clone, Copy, Debug, PartialEq, Eq, Structural)]
pub enum WaitAction {
    /// Look at the limiter's settings.
    ReadSettings,
    /// Wait until the limiter is resumed, then look at the settings again.
    AwaitResume,
    /// Ask the token bucket for the bytes.
    CheckTokens,
    /// Sleep this many nanoseconds, then look at the settings again.
    Sleep(u128),
    /// Stop waiting: the bytes may be sent.
    Proceed,
}

/// One step of waiting for permission to send `bytes` bytes: from the stage
/// and what was learned, the next stage and what to do.
///
/// While the limiter is paused nothing is asked of the bucket. Once it runs,
/// a rate of zero or a request of zero bytes proceeds at once; otherwise the
/// bucket is asked, and a refusal with a delay is slept off before the limiter
/// is looked at again. A request larger than the bucket proceeds, so that it
/// cannot wait for ever. An event that does not fit the stage changes
/// nothing and asks for the settings again.
pub fn wait_step(stage: WaitStage, bytes: u32, event: WaitEvent) -> (r: (WaitStage, WaitAction))
    ensures
        event matches WaitEvent::Observed(s) ==> ((stage is Gate || stage is Recheck) && s.paused
            ==> r == (stage, WaitAction::AwaitResume)),
        event matches WaitEvent::Observed(s) ==> (stage is Gate && !s.paused && (s.max_rate == 0
            || bytes == 0) ==> r == (WaitStage::Done, WaitAction::Proceed)),
        event matches WaitEvent::Observed(s) ==> (stage is Gate && !s.paused && s.max_rate != 0
            && bytes != 0 ==> r == (WaitStage::Acquire, WaitAction::CheckTokens)),
        event matches WaitEvent::Observed(s) ==> (stage is Recheck && !s.paused ==> r == (
            WaitStage::Acquire,
            WaitAction::CheckTokens,
        )),
        event matches WaitEvent::Checked(c) ==> (stage is Acquire && !(c is RetryAfter) ==> r == (
            WaitStage::Done,
            WaitAction::Proceed,
        )),
        event matches WaitEvent::Checked(TokenCheck::RetryAfter(d)) ==> (stage is Acquire ==> r == (
            WaitStage::Recheck,
            WaitAction::Sleep(d),
        )),
        stage is Done ==> r == (WaitStage::Done, WaitAction::Proceed),
        (stage is Gate || stage is Recheck) && event is Checked ==> r == (
            stage,
            WaitAction::ReadSettings,
        ),
        stage is Acquire && event is Observed ==> r == (WaitStage::Acquire, WaitAction::CheckTokens),
{
    match stage {
        WaitStage::Gate => match event {
            WaitEvent::Observed(s) => {
                if s.paused {
                    (WaitStage::Gate, WaitAction::AwaitResume)
                } else if s.max_rate == 0 || bytes == 0 {
                    (WaitStage::Done, WaitAction::Proceed)
                } else {
                    (WaitStage::Acquire, WaitAction::CheckTokens)
                }
            },
            WaitEvent::Checked(_) => (WaitStage::Gate, WaitAction::ReadSettings),
        },
        WaitStage::Recheck => match event {
            WaitEvent::Observed(s) => {
                if s.paused {
                    (WaitStage::Recheck, WaitAction::AwaitResume)
                } else {
                    (WaitStage::Acquire, WaitAction::CheckTokens)
                }
            },
            WaitEvent::Checked(_) => (WaitStage::Recheck, WaitAction::ReadSettings),
        },
        WaitStage::Acquire => match event {
            WaitEvent::Checked(c) => match c {
                TokenCheck::RetryAfter(d) => (WaitStage::Recheck, WaitAction::Sleep(d)),
                _ => (WaitStage::Done, WaitAction::Proceed),
            },
            WaitEvent::Observed(_) => (WaitStage::Acquire, WaitAction::CheckTokens),
        },
        WaitStage::Done => (WaitStage::Done, WaitAction::Proceed),
    }
}

} // verus!
