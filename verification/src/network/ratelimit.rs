//! A limit on the number of events in a window of time.

use crate::primitives::clock::Stopwatch;
use std::collections::VecDeque;
use vstd::prelude::*;

verus! {

/// Allows up to a number of events in any window of time.
pub struct RateLimiter {
    window: u64,
    max_events: usize,
    timestamps: VecDeque<u64>,
    clock: Stopwatch,
}

/// Whether an event lies before the window that ends now.
pub open spec fn expired(timestamp: u64, window: u64, now: u64) -> bool {
    timestamp + window < now
}

/// The events from the first that lies in the window on.
pub open spec fn in_window(timestamps: Seq<u64>, window: u64, now: u64) -> Seq<u64>
    decreases timestamps.len(),
{
    if timestamps.len() > 0 && expired(timestamps[0], window, now) {
        in_window(timestamps.skip(1), window, now)
    } else {
        timestamps
    }
}

/// Of events in the order of time, those that are left are those that lie in the
/// window.
pub proof fn lemma_in_window(timestamps: Seq<u64>, window: u64, now: u64)
    requires
        forall|i: int, j: int|
            0 <= i <= j < timestamps.len() ==> timestamps[i] <= timestamps[j],
    ensures
        ({
            let kept = in_window(timestamps, window, now);
            let dropped = timestamps.len() - kept.len();
            &&& dropped >= 0
            &&& kept == timestamps.skip(dropped)
            &&& forall|i: int| 0 <= i < dropped ==> expired(#[trigger] timestamps[i], window, now)
            &&& forall|i: int|
                dropped <= i < timestamps.len() ==> !expired(#[trigger] timestamps[i], window, now)
        }),
    decreases timestamps.len(),
{
    if timestamps.len() > 0 && expired(timestamps[0], window, now) {
        let rest = timestamps.skip(1);
        lemma_in_window(rest, window, now);
        let kept = in_window(rest, window, now);
        let dropped = timestamps.len() - kept.len();
        assert(rest.skip(dropped - 1) =~= timestamps.skip(dropped));
        assert forall|i: int| 0 <= i < dropped implies expired(
            #[trigger] timestamps[i],
            window,
            now,
        ) by {
            if i > 0 {
                assert(rest[i - 1] == timestamps[i]);
            }
        }
        assert forall|i: int| dropped <= i < timestamps.len() implies !expired(
            #[trigger] timestamps[i],
            window,
            now,
        ) by {
            assert(rest[i - 1] == timestamps[i]);
        }
    } else {
        assert(timestamps.skip(0) =~= timestamps);
        assert forall|i: int| 0 <= i < timestamps.len() implies !expired(
            #[trigger] timestamps[i],
            window,
            now,
        ) by {
            assert(timestamps[0] <= timestamps[i]);
        }
    }
}

/// What a limiter stands for.
#[verifier::ext_equal]
pub struct LimiterView {
    pub window: u64,
    pub max_events: usize,
    pub events: Seq<u64>,
}

/// Whether an event at a time is allowed.
pub open spec fn allows(l: LimiterView, now: u64) -> bool {
    in_window(l.events, l.window, now).len() < l.max_events
}

/// The limiter after an event was tried at a time.
pub open spec fn limiter_after(l: LimiterView, now: u64) -> LimiterView {
    let kept = in_window(l.events, l.window, now);
    LimiterView {
        events: if allows(l, now) {
            kept.push(now)
        } else {
            kept
        },
        ..l
    }
}

impl View for RateLimiter {
    type V = LimiterView;

    open spec fn view(&self) -> LimiterView {
        LimiterView {
            window: self.window(),
            max_events: self.max_events(),
            events: self.events(),
        }
    }
}

impl RateLimiter {
    /// Length of the window in nanoseconds.
    pub closed spec fn window(self) -> u64 {
        self.window
    }

    /// Number of events that a window may hold.
    pub closed spec fn max_events(self) -> usize {
        self.max_events
    }

    /// Times of the events that were allowed, the latest at the end.
    pub closed spec fn events(self) -> Seq<u64> {
        self.timestamps@
    }

    /// Whether a time is one that the clock of the limiter showed.
    pub closed spec fn clock_showed(self, now: u64) -> bool {
        self.clock.showed(now)
    }

    /// No more events are held than a window may hold.
    pub open spec fn valid(self) -> bool {
        self.events().len() <= self.max_events()
    }

    /// A limiter for windows of a number of nanoseconds.
    pub fn new(window_nanos: u64, max_events: usize) -> (r: Self)
        ensures
            r.window() == window_nanos,
            r.max_events() == max_events,
            r.events() == Seq::<u64>::empty(),
            r.valid(),
    {
        RateLimiter {
            window: window_nanos,
            max_events,
            timestamps: VecDeque::new(),
            clock: Stopwatch::start(),
        }
    }

    fn cleanup_old(&mut self, now: u64)
        ensures
            final(self).window() == old(self).window(),
            final(self).max_events() == old(self).max_events(),
            final(self).events() == in_window(old(self).events(), old(self).window(), now),
            final(self).events().len() <= old(self).events().len(),
    {
        let ghost whole = in_window(self.timestamps@, self.window, now);
        while self.timestamps.len() > 0 && self.timestamps[0] < now && now - self.timestamps[0]
            > self.window
            invariant
                self.window == old(self).window,
                self.max_events == old(self).max_events,
                whole == in_window(old(self).timestamps@, old(self).window, now),
                whole == in_window(self.timestamps@, self.window, now),
                self.timestamps@.len() <= old(self).timestamps@.len(),
            decreases self.timestamps@.len(),
        {
            let ghost before = self.timestamps@;
            let _ = self.timestamps.pop_front();
            assert(self.timestamps@ =~= before.skip(1));
        }
    }

    /// Check if action is allowed at a given time, and count it where it is.
    pub fn check_at(&mut self, now: u64) -> (allowed: bool)
        ensures
            allowed == allows(old(self)@, now),
            final(self)@ == limiter_after(old(self)@, now),
            old(self).valid() ==> final(self).valid(),
    {
        self.cleanup_old(now);
        if self.timestamps.len() < self.max_events {
            self.timestamps.push_back(now);
            true
        } else {
            false
        }
    }

    /// Check if action is allowed now.
    pub fn check(&mut self) -> (allowed: bool)
        ensures
            old(self).events().len() < old(self).max_events() ==> allowed,
            old(self).max_events() == 0 ==> !allowed,
            exists|now: u64|
                {
                    &&& old(self).clock_showed(now)
                    &&& allowed == allows(old(self)@, now)
                    &&& final(self)@ == #[trigger] limiter_after(old(self)@, now)
                },
            old(self).valid() ==> final(self).valid(),
    {
        let now: u64 = self.clock.nanos();
        proof {
            lemma_in_window_shorter(self.events(), self.window(), now);
        }
        self.check_at(now)
    }

    /// Number of events in the window that ends at a given time.
    pub fn current_rate_at(&mut self, now: u64) -> (n: usize)
        ensures
            final(self).window() == old(self).window(),
            final(self).max_events() == old(self).max_events(),
            final(self).events() == in_window(old(self).events(), old(self).window(), now),
            n == final(self).events().len(),
    {
        self.cleanup_old(now);
        self.timestamps.len()
    }

    /// Number of events in the window that ends now.
    pub fn current_rate(&mut self) -> (n: usize)
        ensures
            final(self).window() == old(self).window(),
            final(self).max_events() == old(self).max_events(),
            n == final(self).events().len(),
            exists|now: u64|
                old(self).clock_showed(now) && final(self).events() == #[trigger] in_window(
                    old(self).events(),
                    old(self).window(),
                    now,
                ),
    {
        let now: u64 = self.clock.nanos();
        self.current_rate_at(now)
    }
}

proof fn lemma_in_window_shorter(timestamps: Seq<u64>, window: u64, now: u64)
    ensures
        in_window(timestamps, window, now).len() <= timestamps.len(),
    decreases timestamps.len(),
{
    if timestamps.len() > 0 && expired(timestamps[0], window, now) {
        lemma_in_window_shorter(timestamps.skip(1), window, now);
    }
}

} // verus!
