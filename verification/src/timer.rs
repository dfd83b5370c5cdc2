//! One-shot election timer with a randomized duration.

use crate::random::uniform_inclusive;
use crossbeam::channel::Receiver;
use std::time::Instant;
use vstd::prelude::*;

verus! {

/// The receiving half of a `crossbeam` channel, carried as an opaque value.
#[verifier::external_type_specification]
#[verifier::external_body]
#[verifier::reject_recursive_types(T)]
pub struct ExReceiver<T>(Receiver<T>);

/// A moment on the monotonic clock of `std`, carried as an opaque value.
#[verifier::external_type_specification]
#[verifier::external_body]
pub struct ExInstant(Instant);

/// The span, in milliseconds, that a receiver made by
/// `crossbeam::channel::after` waits from its making until it yields its one
/// message.
pub uninterp spec fn span_ms(rx: Receiver<Instant>) -> u64;

/// Arms a one-shot signal with `crossbeam::channel::after`: the receiver it
/// returns yields one message once `millis` milliseconds have passed.
///
/// Trusted: the span of the receiver is `millis`. `after` sets the deadline
/// of the receiver to the moment of the call plus the duration handed to it,
/// which is `millis` milliseconds. `after` does not panic: on a deadline
/// beyond the clock's range it returns a receiver that never yields.
#[verifier::external_body]
fn arm(millis: u64) -> (rx: Receiver<Instant>)
    ensures
        span_ms(rx) == millis,
{
    crossbeam::channel::after(std::time::Duration::from_millis(millis))
}

/// Polls a receiver with `Receiver::try_recv` of `crossbeam::channel`,
/// without waiting, and reports whether a message was there.
///
/// Trusted, with nothing claimed of the outcome: it depends on the clock.
#[verifier::external_body]
fn poll(rx: &Receiver<Instant>) -> (ready: bool) {
    rx.try_recv().is_ok()
}

/// Whether the signal has occurred since the latest arming, given whether
/// an earlier poll has reported it and whether this poll finds it: it has
/// occurred if either is so.
pub open spec fn reports(reported: bool, ready: bool) -> bool {
    reported || ready
}

/// Decides from the outcome of a poll whether the signal has occurred since
/// the latest arming.
pub fn poll_reports(reported: bool, ready: bool) -> (fired: bool)
    ensures
        fired == reports(reported, ready),
{
    reported || ready
}

/// The upper end of the range `min_ms..=max_ms`; a `max_ms` below `min_ms`
/// gives the single duration `min_ms`.
pub open spec fn upper_end(min_ms: u64, max_ms: u64) -> u64 {
    if max_ms < min_ms {
        min_ms
    } else {
        max_ms
    }
}

/// A rearmable one-shot timer. Each arming draws a fresh duration, uniform
/// over the timer's range of milliseconds.
pub struct HeartbeatTimer {
    min_ms: u64,
    max_ms: u64,
    armed_ms: u64,
    spent: bool,
    rx: Receiver<Instant>,
}

impl HeartbeatTimer {
    #[verifier::type_invariant]
    spec fn armed_in_range(&self) -> bool {
        self.min_ms <= self.armed_ms <= self.max_ms && span_ms(self.rx) == self.armed_ms
    }

    /// Shortest duration the timer can be armed with, in milliseconds.
    pub closed spec fn shortest(&self) -> u64 {
        self.min_ms
    }

    /// Longest duration the timer can be armed with, in milliseconds.
    pub closed spec fn longest(&self) -> u64 {
        self.max_ms
    }

    /// Duration drawn at the latest arming, in milliseconds.
    pub closed spec fn armed_for(&self) -> u64 {
        self.armed_ms
    }

    /// Whether a poll has reported the signal of the latest arming.
    pub closed spec fn reported(&self) -> bool {
        self.spent
    }

    /// Creates a timer over the range `min_ms..=max_ms`, armed with the
    /// duration `millis` of that range. A `max_ms` below `min_ms` gives the
    /// single duration `min_ms`.
    pub fn new_with(min_ms: u64, max_ms: u64, millis: u64) -> (timer: HeartbeatTimer)
        requires
            min_ms <= millis <= upper_end(min_ms, max_ms),
        ensures
            timer.shortest() == min_ms,
            timer.longest() == upper_end(min_ms, max_ms),
            timer.armed_for() == millis,
            !timer.reported(),
    {
        let upper: u64 = if max_ms < min_ms {
            min_ms
        } else {
            max_ms
        };
        HeartbeatTimer { min_ms, max_ms: upper, armed_ms: millis, spent: false, rx: arm(millis) }
    }

    /// Creates a timer over the range `min_ms..=max_ms` and arms it with a
    /// duration drawn from that range. A `max_ms` below `min_ms` gives the
    /// single duration `min_ms`.
    pub fn new(min_ms: u64, max_ms: u64) -> (timer: HeartbeatTimer)
        ensures
            timer.shortest() == min_ms,
            timer.longest() == upper_end(min_ms, max_ms),
            timer.shortest() <= timer.armed_for() <= timer.longest(),
            !timer.reported(),
    {
        let upper: u64 = if max_ms < min_ms {
            min_ms
        } else {
            max_ms
        };
        let millis: u64 = uniform_inclusive(min_ms, upper);
        HeartbeatTimer::new_with(min_ms, max_ms, millis)
    }

    /// Discards any pending signal and arms the timer anew with the duration
    /// `millis` of its range.
    pub fn renew_with(&mut self, millis: u64)
        requires
            old(self).shortest() <= millis <= old(self).longest(),
        ensures
            final(self).armed_for() == millis,
            !final(self).reported(),
            final(self).shortest() == old(self).shortest(),
            final(self).longest() == old(self).longest(),
    {
        *self = HeartbeatTimer {
            min_ms: self.min_ms,
            max_ms: self.max_ms,
            armed_ms: millis,
            spent: false,
            rx: arm(millis),
        };
    }

    /// Discards any pending signal and arms the timer anew, with a freshly
    /// drawn duration from the same range.
    pub fn renew(&mut self)
        ensures
            final(self).shortest() == old(self).shortest(),
            final(self).longest() == old(self).longest(),
            final(self).shortest() <= final(self).armed_for() <= final(self).longest(),
            !final(self).reported(),
    {
        proof {
            use_type_invariant(&*self);
        }
        let millis: u64 = uniform_inclusive(self.min_ms, self.max_ms);
        self.renew_with(millis);
    }

    /// Polls the timer without waiting: `true` when the signal has occurred
    /// since the latest arming. Once it has, every poll says so until the
    /// timer is armed anew.
    pub fn fired(&mut self) -> (fired: bool)
        ensures
            old(self).reported() ==> fired,
            final(self).reported() == fired,
            final(self).shortest() == old(self).shortest(),
            final(self).longest() == old(self).longest(),
            final(self).armed_for() == old(self).armed_for(),
    {
        proof {
            use_type_invariant(&*self);
        }
        let ready = if self.spent {
            false
        } else {
            poll(&self.rx)
        };
        let fired = poll_reports(self.spent, ready);
        self.spent = fired;
        fired
    }

    /// The duration drawn at the latest arming, in milliseconds.
    pub fn armed_millis(&self) -> (millis: u64)
        ensures
            millis == self.armed_for(),
            self.shortest() <= millis <= self.longest(),
    {
        proof {
            use_type_invariant(self);
        }
        self.armed_ms
    }
}

} // verus!
