//! Flushing in the background.
use crate::error::{Error, ErrorView, Result};
use vstd::prelude::*;

verus! {

/// A span of time.
#[derive(Debug, Clone, Copy, PartialEq, Eq, Structural)]
pub struct Interval {
    pub seconds: u64,
    pub nanoseconds: u32,
}

impl Interval {
    /// No time at all.
    pub open spec fn zero(self) -> bool {
        self.seconds == 0 && self.nanoseconds == 0
    }

    /// Whether it is no time at all.
    pub fn is_zero(&self) -> (zero: bool)
        ensures
            zero == self.zero(),
    {
        self.seconds == 0 && self.nanoseconds == 0
    }
}

/// What the flusher of a collection learns.
#[derive(Debug, PartialEq, Eq)]
pub enum FlushEvent {
    /// It is to stop, or nobody is left to stop it.
    Stopped,
    /// The interval has passed.
    Elapsed,
    /// So many points are pending.
    Pending(Result<usize>),
    /// A flush came out.
    Flushed(Result<u64>),
}

/// What the flusher of a collection does next.
#[derive(Debug, Clone, Copy, PartialEq, Eq, Structural)]
pub enum FlushAction {
    Wait,
    CountPending,
    Flush,
    Finish,
}

/// Flushes a collection whenever enough points are pending.
pub struct BackgroundFlusher {
    threshold: usize,
    last_error: Option<Error>,
}

/// The threshold, and the error that ended the flusher.
pub struct FlusherView {
    pub threshold: usize,
    pub last_error: Option<Error>,
}

impl View for BackgroundFlusher {
    type V = FlusherView;

    closed spec fn view(&self) -> FlusherView {
        FlusherView { threshold: self.threshold, last_error: self.last_error }
    }
}

/// What a flusher does on an event, and what it then is.
pub open spec fn flusher_step(before: FlusherView, event: FlushEvent) -> (FlusherView, FlushAction) {
    match event {
        FlushEvent::Stopped => (before, FlushAction::Finish),
        FlushEvent::Elapsed => (before, FlushAction::CountPending),
        FlushEvent::Pending(Ok(count)) => (
            before,
            if count < before.threshold {
                FlushAction::Wait
            } else {
                FlushAction::Flush
            },
        ),
        FlushEvent::Pending(Err(error)) => (
            FlusherView { last_error: Some(error), ..before },
            FlushAction::Finish,
        ),
        FlushEvent::Flushed(Ok(_)) => (before, FlushAction::Wait),
        FlushEvent::Flushed(Err(error)) => (
            FlusherView { last_error: Some(error), ..before },
            FlushAction::Finish,
        ),
    }
}

impl BackgroundFlusher {
    /// A flusher that looks at a collection every interval.
    pub fn start(check_interval: Interval, dirty_point_threshold: usize) -> (result: Result<
        BackgroundFlusher,
    >)
        ensures
            match result {
                Ok(flusher) => {
                    &&& dirty_point_threshold > 0 && !check_interval.zero()
                    &&& flusher@ == (FlusherView {
                        threshold: dirty_point_threshold,
                        last_error: None,
                    })
                },
                Err(error) => if dirty_point_threshold == 0 {
                    error@ == ErrorView::InvalidConfig(
                        "background flush threshold must be greater than zero"@,
                    )
                } else {
                    check_interval.zero() && error@ == ErrorView::InvalidConfig(
                        "background flush interval must be greater than zero"@,
                    )
                },
            },
    {
        if dirty_point_threshold == 0 {
            return Err(
                Error::InvalidConfig("background flush threshold must be greater than zero"),
            );
        }
        if check_interval.is_zero() {
            return Err(
                Error::InvalidConfig("background flush interval must be greater than zero"),
            );
        }
        Ok(BackgroundFlusher { threshold: dirty_point_threshold, last_error: None })
    }

    /// Decides what to do next.
    pub fn step(&mut self, event: FlushEvent) -> (action: FlushAction)
        ensures
            (final(self)@, action) == flusher_step(old(self)@, event),
    {
        match event {
            FlushEvent::Stopped => FlushAction::Finish,
            FlushEvent::Elapsed => FlushAction::CountPending,
            FlushEvent::Pending(Ok(count)) => if count < self.threshold {
                FlushAction::Wait
            } else {
                FlushAction::Flush
            },
            FlushEvent::Pending(Err(error)) => {
                self.last_error = Some(error);
                FlushAction::Finish
            },
            FlushEvent::Flushed(Ok(_)) => FlushAction::Wait,
            FlushEvent::Flushed(Err(error)) => {
                self.last_error = Some(error);
                FlushAction::Finish
            },
        }
    }

    /// The error that ended the flusher.
    pub fn last_error(&self) -> (error: Option<&Error>)
        ensures
            match error {
                Some(e) => self@.last_error == Some(*e),
                None => self@.last_error is None,
            },
    {
        match &self.last_error {
            Some(error) => Some(error),
            None => None,
        }
    }

    /// What stopping the flusher comes to.
    pub fn stop(self) -> (result: Result<()>)
        ensures
            result == match self@.last_error {
                Some(error) => Err::<(), Error>(error),
                None => Ok(()),
            },
    {
        match self.last_error {
            Some(error) => Err(error),
            None => Ok(()),
        }
    }
}

/// A flusher flushes exactly where so many points are pending as its threshold says, or
/// more; it ends exactly where it is told to stop or something fails, and keeps the
/// failure; and no event moves its threshold.
pub proof fn law_flushers_go_by_the_threshold(before: FlusherView, event: FlushEvent)
    ensures
        ({
            let (after, action) = flusher_step(before, event);
            let failure = match event {
                FlushEvent::Pending(Err(error)) => Some(error),
                FlushEvent::Flushed(Err(error)) => Some(error),
                _ => None,
            };
            &&& action is Flush <==> (event matches FlushEvent::Pending(Ok(count)) && count
                >= before.threshold)
            &&& action is Finish <==> event is Stopped || failure is Some
            &&& action is CountPending <==> event is Elapsed
            &&& after.threshold == before.threshold
            &&& failure is Some ==> after.last_error == failure
            &&& failure is None ==> after.last_error == before.last_error
        }),
{
}

} // verus!
