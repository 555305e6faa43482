//! A fixed-size queue with sliding-window rate limiting that drops the items
//! it cannot take.
use std::collections::VecDeque;
use std::time::{Duration, Instant};

use vstd::prelude::*;

use crate::rate_limit::{
    is_timeline, lemma_prune_keeps_timeline, lemma_prune_shrinks, lemma_push_keeps_timeline, prune,
    step_accepts, tracker_step,
};

verus! {

broadcast use vstd::std_specs::vecdeque::group_vec_dequeue_axioms;

#[verifier::external_type_specification]
#[verifier::external_body]
pub struct ExInstant(std::time::Instant);

/// `std::time::Instant::now`: a reading of the monotonic clock. Nothing is
/// stated of it.
#[verifier::external_body]
fn instant_now() -> Instant {
    Instant::now()
}

/// `std::time::Instant::elapsed`: the time since `origin` by the monotonic
/// clock. Nothing is stated of it.
#[verifier::external_body]
fn elapsed_since(origin: &Instant) -> Duration {
    origin.elapsed()
}

/// `std::time::Duration::as_nanos`: the whole number of nanoseconds of a
/// duration. The duration is opaque here, so nothing is stated of it.
#[verifier::external_body]
fn duration_nanos(d: &Duration) -> u128 {
    d.as_nanos()
}

/// Configuration for the rate-limited queue
pub struct QueueConfig {
    /// Maximum number of items the queue can hold
    pub max_capacity: usize,
    /// Maximum number of items that can be processed per time window
    pub rate_limit: usize,
    /// Length of the time window for rate limiting, in nanoseconds
    pub time_window: u128,
}

/// What the rate tracker holds: the times of the recorded requests that
/// may still count, oldest first, the window length, the limit, and the
/// latest time its clock has given (no later reading is earlier).
pub struct TrackerView {
    pub requests: Seq<u128>,
    pub window: u128,
    pub limit: usize,
    pub latest: u128,
}

/// Tracks the times of accepted requests and tells whether one more fits
/// into the current window.
pub struct RateTracker {
    requests: VecDeque<u128>,
    window: u128,
    limit: usize,
    origin: Instant,
    latest: u128,
}

impl View for RateTracker {
    type V = TrackerView;

    closed spec fn view(&self) -> TrackerView {
        TrackerView { requests: self.requests@, window: self.window, limit: self.limit, latest: self.latest }
    }
}

impl RateTracker {
    /// A tracker with no recorded request; its clock starts now.
    pub fn new(limit: usize, window: u128) -> (tracker: Self)
        ensures
            tracker@.requests == Seq::<u128>::empty(),
            tracker@.window == window,
            tracker@.limit == limit,
            tracker@.latest == 0,
            is_timeline(tracker@.requests, tracker@.latest),
    {
        RateTracker { requests: VecDeque::new(), window, limit, origin: instant_now(), latest: 0 }
    }

    /// The current time of this tracker's clock, in nanoseconds since it was
    /// made. A reading is never earlier than the latest one: the monotonic
    /// clock never goes back, and a reading that did would be taken as the
    /// latest one.
    fn now(&mut self) -> (now: u128)
        ensures
            now >= old(self)@.latest,
            final(self)@ == (TrackerView { latest: now, ..old(self)@ }),
    {
        let reading = duration_nanos(&elapsed_since(&self.origin));
        self.advance_clock(reading)
    }

    /// Take `reading` of the clock: the tracker's time becomes the reading,
    /// or stays at the latest time if the reading is earlier.
    fn advance_clock(&mut self, reading: u128) -> (now: u128)
        ensures
            now == (if reading < old(self)@.latest { old(self)@.latest } else { reading }),
            final(self)@ == (TrackerView { latest: now, ..old(self)@ }),
    {
        let now = if reading < self.latest { self.latest } else { reading };
        self.latest = now;
        now
    }

    /// Check, at time `now`, whether a new request fits within the rate limit:
    /// the requests that have left the window are dropped first, and the
    /// request fits if fewer than `limit` remain.
    pub fn can_accept_at(&mut self, now: u128) -> (accepted: bool)
        ensures
            final(self)@.requests == prune(old(self)@.requests, now, old(self)@.window),
            final(self)@.window == old(self)@.window,
            final(self)@.limit == old(self)@.limit,
            final(self)@.latest == old(self)@.latest,
            accepted == (final(self)@.requests.len() < final(self)@.limit),
    {
        loop
            invariant
                prune(self.requests@, now, self.window) == prune(
                    old(self).requests@,
                    now,
                    old(self).window,
                ),
                self.window == old(self).window,
                self.limit == old(self).limit,
                self.latest == old(self).latest,
            ensures
                self.requests@ == prune(old(self).requests@, now, old(self).window),
                self.window == old(self).window,
                self.limit == old(self).limit,
                self.latest == old(self).latest,
            decreases self.requests@.len(),
        {
            if self.requests.len() == 0 {
                break;
            }
            let oldest = self.requests[0];
            let elapsed = if now >= oldest { now - oldest } else { 0 };
            if elapsed > self.window {
                let ghost before = self.requests@;
                self.requests.pop_front();
                assert(self.requests@ =~= before.drop_first());
            } else {
                break;
            }
        }
        self.requests.len() < self.limit
    }

    /// Check if we can accept a new request within rate limits, at the
    /// current time of the tracker's clock.
    pub fn can_accept(&mut self) -> (accepted: bool)
        ensures
            exists|now: u128|
                {
                    &&& now >= old(self)@.latest
                    &&& final(self)@.latest == now
                    &&& final(self)@.requests == prune(old(self)@.requests, now, old(self)@.window)
                },
            final(self)@.window == old(self)@.window,
            final(self)@.limit == old(self)@.limit,
            accepted == (final(self)@.requests.len() < final(self)@.limit),
            is_timeline(old(self)@.requests, old(self)@.latest) ==> is_timeline(
                final(self)@.requests,
                final(self)@.latest,
            ),
    {
        let now = self.now();
        proof {
            if is_timeline(old(self)@.requests, old(self)@.latest) {
                lemma_push_keeps_timeline(old(self)@.requests, old(self)@.latest, now);
                lemma_prune_keeps_timeline(old(self)@.requests, now, old(self)@.window, now);
            }
        }
        self.can_accept_at(now)
    }

    /// Record a new request made at time `now`.
    pub fn record_request_at(&mut self, now: u128)
        ensures
            final(self)@.requests == old(self)@.requests.push(now),
            final(self)@.window == old(self)@.window,
            final(self)@.limit == old(self)@.limit,
            final(self)@.latest == old(self)@.latest,
    {
        self.requests.push_back(now);
    }

    /// Record a new request at the current time of the tracker's clock.
    pub fn record_request(&mut self)
        ensures
            exists|now: u128|
                {
                    &&& now >= old(self)@.latest
                    &&& final(self)@.latest == now
                    &&& final(self)@.requests == old(self)@.requests.push(now)
                },
            final(self)@.window == old(self)@.window,
            final(self)@.limit == old(self)@.limit,
            is_timeline(old(self)@.requests, old(self)@.latest) ==> is_timeline(
                final(self)@.requests,
                final(self)@.latest,
            ),
    {
        let now = self.now();
        proof {
            if is_timeline(old(self)@.requests, old(self)@.latest) {
                lemma_push_keeps_timeline(old(self)@.requests, old(self)@.latest, now);
            }
        }
        self.record_request_at(now);
    }
}

/// The outcome of an attempt to enqueue an item.
#[derive(Debug, Clone, Copy, PartialEq, Eq, Structural)]
pub enum EnqueueResult {
    /// Item was successfully enqueued
    Success,
    /// Item was dropped because queue is full
    QueueFull,
    /// Item was dropped because rate limit exceeded
    RateLimitExceeded,
}

/// The outcome of a request at `now`, given the recorded requests and
/// whether the queue has room: the rate limit is checked first, then the
/// capacity.
pub open spec fn enqueue_outcome(reqs: Seq<u128>, now: u128, window: u128, limit: usize, room: bool) -> EnqueueResult {
    if prune(reqs, now, window).len() >= limit {
        EnqueueResult::RateLimitExceeded
    } else if !room {
        EnqueueResult::QueueFull
    } else {
        EnqueueResult::Success
    }
}

/// One attempt to enqueue `item` at `now` took the queue from `before` to
/// `after` with `result`: the outcome follows `enqueue_outcome`, the tracker
/// takes one step, only an accepted item is appended, and the configuration
/// stays.
pub open spec fn enqueue_effect<T>(
    before: QueueView<T>,
    after: QueueView<T>,
    item: T,
    now: u128,
    result: EnqueueResult,
) -> bool {
    let room = before.items.len() < before.max_capacity;
    &&& result == enqueue_outcome(before.requests, now, before.time_window, before.rate_limit, room)
    &&& (result == EnqueueResult::Success) == step_accepts(
        before.requests,
        now,
        before.time_window,
        before.rate_limit,
        room,
    )
    &&& after.requests == tracker_step(before.requests, now, before.time_window, before.rate_limit, room)
    &&& after.items == if result == EnqueueResult::Success {
        before.items.push(item)
    } else {
        before.items
    }
    &&& after.max_capacity == before.max_capacity
    &&& after.rate_limit == before.rate_limit
    &&& after.time_window == before.time_window
}

/// What the queue holds: its items, front first, the recorded request times
/// of its rate tracker, the latest time its clock has given, and its
/// configuration.
pub struct QueueView<T> {
    pub items: Seq<T>,
    pub requests: Seq<u128>,
    pub latest: u128,
    pub max_capacity: usize,
    pub rate_limit: usize,
    pub time_window: u128,
}

/// Everything but the items stays: the tracker's requests and clock, and
/// the configuration.
pub open spec fn keeps_all_but_items<T>(before: QueueView<T>, after: QueueView<T>) -> bool {
    &&& after.requests == before.requests
    &&& after.latest == before.latest
    &&& after.max_capacity == before.max_capacity
    &&& after.rate_limit == before.rate_limit
    &&& after.time_window == before.time_window
}

/// Taking `taken` out of the front of the queue took it from `before` to
/// `after`: what it held is `taken` followed by what it holds, and nothing
/// else changed.
pub open spec fn takes_from_front<T>(before: QueueView<T>, after: QueueView<T>, taken: Seq<T>) -> bool {
    &&& before.items == taken + after.items
    &&& keeps_all_but_items(before, after)
}

/// Taking from the front twice is taking both, in order.
pub proof fn lemma_takes_compose<T>(
    a: QueueView<T>,
    b: QueueView<T>,
    c: QueueView<T>,
    first: Seq<T>,
    second: Seq<T>,
)
    requires
        takes_from_front(a, b, first),
        takes_from_front(b, c, second),
    ensures
        takes_from_front(a, c, first + second),
{
    assert(first + (second + c.items) =~= (first + second) + c.items);
}

/// A fixed-size queue with rate limiting that drops requests exceeding the limit
pub struct RateLimitedQueue<T> {
    queue: VecDeque<T>,
    config: QueueConfig,
    rate_tracker: RateTracker,
}

impl<T> View for RateLimitedQueue<T> {
    type V = QueueView<T>;

    closed spec fn view(&self) -> QueueView<T> {
        QueueView {
            items: self.queue@,
            requests: self.rate_tracker@.requests,
            latest: self.rate_tracker@.latest,
            max_capacity: self.config.max_capacity,
            rate_limit: self.config.rate_limit,
            time_window: self.config.time_window,
        }
    }
}

/// What every queue keeps: the queue holds no more items than its capacity,
/// and its tracker no more live requests than the rate limit.
pub open spec fn queue_invariant<T>(v: QueueView<T>) -> bool {
    &&& v.items.len() <= v.max_capacity
    &&& v.requests.len() <= v.rate_limit
}

impl<T> RateLimitedQueue<T> {
    /// The queue is well formed: its tracker follows its configuration, and
    /// the queue invariant holds.
    pub closed spec fn wf(&self) -> bool {
        &&& self.rate_tracker@.window == self.config.time_window
        &&& self.rate_tracker@.limit == self.config.rate_limit
        &&& queue_invariant(self@)
    }

    /// Create a new rate-limited queue with the given configuration
    pub fn new(config: QueueConfig) -> (queue: Self)
        ensures
            queue.wf(),
            queue@.items == Seq::<T>::empty(),
            queue@.requests == Seq::<u128>::empty(),
            queue@.latest == 0,
            is_timeline(queue@.requests, queue@.latest),
            queue@.max_capacity == config.max_capacity,
            queue@.rate_limit == config.rate_limit,
            queue@.time_window == config.time_window,
    {
        RateLimitedQueue {
            queue: VecDeque::with_capacity(config.max_capacity),
            rate_tracker: RateTracker::new(config.rate_limit, config.time_window),
            config,
        }
    }

    /// Attempt to enqueue an item at time `now`. The rate limit is checked
    /// first, then the capacity; only an accepted item is stored and counted
    /// against the rate limit.
    pub fn enqueue_at(&mut self, item: T, now: u128) -> (result: EnqueueResult)
        requires
            old(self).wf(),
        ensures
            final(self).wf(),
            enqueue_effect(old(self)@, final(self)@, item, now, result),
            final(self)@.latest == old(self)@.latest,
    {
        proof {
            lemma_prune_shrinks(old(self)@.requests, now, old(self)@.time_window);
        }
        // Check rate limit first
        if !self.rate_tracker.can_accept_at(now) {
            return EnqueueResult::RateLimitExceeded;
        }
        // Check queue capacity
        if self.queue.len() >= self.config.max_capacity {
            return EnqueueResult::QueueFull;
        }
        // Accept the item
        self.queue.push_back(item);
        self.rate_tracker.record_request_at(now);
        EnqueueResult::Success
    }

    /// Attempt to enqueue an item at the current time of the queue's clock,
    /// which is never earlier than the time of the previous attempt.
    /// Returns the outcome, which says whether the item was accepted or dropped.
    pub fn enqueue(&mut self, item: T) -> (result: EnqueueResult)
        requires
            old(self).wf(),
        ensures
            final(self).wf(),
            exists|now: u128|
                {
                    &&& now >= old(self)@.latest
                    &&& final(self)@.latest == now
                    &&& #[trigger] enqueue_effect(old(self)@, final(self)@, item, now, result)
                },
            is_timeline(old(self)@.requests, old(self)@.latest) ==> is_timeline(
                final(self)@.requests,
                final(self)@.latest,
            ),
    {
        let ghost m = item;
        let now = self.rate_tracker.now();
        proof {
            if is_timeline(old(self)@.requests, old(self)@.latest) {
                lemma_push_keeps_timeline(old(self)@.requests, old(self)@.latest, now);
                lemma_prune_keeps_timeline(old(self)@.requests, now, old(self)@.time_window, now);
                lemma_push_keeps_timeline(prune(old(self)@.requests, now, old(self)@.time_window), now, now);
            }
        }
        let result = self.enqueue_at(item, now);
        assert(enqueue_effect(old(self)@, self@, m, now, result));
        result
    }

    /// Dequeue an item from the front of the queue
    pub fn dequeue(&mut self) -> (front: Option<T>)
        requires
            old(self).wf(),
        ensures
            final(self).wf(),
            old(self)@.items.len() == 0 ==> front is None && final(self)@ == old(self)@,
            old(self)@.items.len() > 0 ==> front == Some(old(self)@.items[0])
                && final(self)@.items == old(self)@.items.drop_first(),
            final(self)@.requests == old(self)@.requests,
            final(self)@.latest == old(self)@.latest,
            keeps_all_but_items(old(self)@, final(self)@),
            takes_from_front(
                old(self)@,
                final(self)@,
                match front {
                    Some(x) => seq![x],
                    None => Seq::<T>::empty(),
                },
            ),
    {
        let front = self.queue.pop_front();
        proof {
            if old(self)@.items.len() > 0 {
                assert(self.queue@ =~= old(self)@.items.drop_first());
                assert(old(self)@.items =~= seq![old(self)@.items[0]] + self.queue@);
            } else {
                assert(old(self)@.items =~= Seq::<T>::empty() + self.queue@);
            }
        }
        front
    }

    /// Take every item out of the queue, front first.
    pub fn dequeue_all(&mut self) -> (items: Vec<T>)
        requires
            old(self).wf(),
        ensures
            final(self).wf(),
            items@ == old(self)@.items,
            final(self)@.items == Seq::<T>::empty(),
            final(self)@.requests == old(self)@.requests,
            final(self)@.latest == old(self)@.latest,
            keeps_all_but_items(old(self)@, final(self)@),
            takes_from_front(old(self)@, final(self)@, items@),
    {
        let mut items: Vec<T> = Vec::new();
        loop
            invariant
                items@ + self.queue@ == old(self)@.items,
                self.wf(),
                self@.requests == old(self)@.requests,
                self@.latest == old(self)@.latest,
                keeps_all_but_items(old(self)@, self@),
            ensures
                items@ == old(self)@.items,
                self.queue@ == Seq::<T>::empty(),
                self.wf(),
                self@.requests == old(self)@.requests,
                self@.latest == old(self)@.latest,
                keeps_all_but_items(old(self)@, self@),
            decreases self.queue@.len(),
        {
            let ghost before = self.queue@;
            match self.queue.pop_front() {
                Some(item) => {
                    items.push(item);
                    assert(self.queue@ =~= before.drop_first());
                    assert(items@ + self.queue@ =~= old(self)@.items);
                },
                None => {
                    assert(items@ + self.queue@ =~= items@);
                    break;
                },
            }
        }
        assert(items@ + self.queue@ =~= items@);
        items
    }
}

/// The queue invariant: a well-formed queue never holds more items than its
/// capacity, nor more live request times than its rate limit.
pub proof fn lemma_queue_bounds<T>(queue: RateLimitedQueue<T>)
    requires
        queue.wf(),
    ensures
        queue_invariant(queue@),
        queue@.items.len() <= queue@.max_capacity,
        queue@.requests.len() <= queue@.rate_limit,
{
}

} // verus!
