use std::time::Duration;

use telemetry::rate_limited_queue::{EnqueueResult, QueueConfig, RateLimitedQueue, RateTracker};

const SECOND: u128 = 1_000_000_000;
const MILLI: u128 = 1_000_000;

fn queue<T>(max_capacity: usize, rate_limit: usize, time_window: u128) -> RateLimitedQueue<T> {
    RateLimitedQueue::new(QueueConfig { max_capacity, rate_limit, time_window })
}

#[test]
fn test_basic_enqueue_dequeue() {
    let mut queue = queue(5, 10, SECOND);

    assert_eq!(queue.enqueue(1), EnqueueResult::Success);
    assert_eq!(queue.enqueue(2), EnqueueResult::Success);

    assert_eq!(queue.dequeue(), Some(1));
    assert_eq!(queue.dequeue(), Some(2));
    assert_eq!(queue.dequeue(), None);
}

#[test]
fn test_queue_full() {
    let mut queue = queue(3, 10, SECOND);

    assert_eq!(queue.enqueue(1), EnqueueResult::Success);
    assert_eq!(queue.enqueue(2), EnqueueResult::Success);
    assert_eq!(queue.enqueue(3), EnqueueResult::Success);
    assert_eq!(queue.enqueue(4), EnqueueResult::QueueFull);
}

#[test]
fn test_rate_limit() {
    let mut queue = queue(100, 5, 100 * MILLI);

    // Should accept first 5 requests
    for i in 0..5 {
        assert_eq!(queue.enqueue(i), EnqueueResult::Success);
    }

    // 6th request should be rate limited
    assert_eq!(queue.enqueue(5), EnqueueResult::RateLimitExceeded);
}

#[test]
fn test_rate_limit_recovery() {
    let mut queue = queue(100, 2, 50 * MILLI);

    // Fill rate limit
    assert_eq!(queue.enqueue(1), EnqueueResult::Success);
    assert_eq!(queue.enqueue(2), EnqueueResult::Success);
    assert_eq!(queue.enqueue(3), EnqueueResult::RateLimitExceeded);

    // Wait for window to pass
    let runtime = tokio::runtime::Builder::new_current_thread().enable_time().build().unwrap();
    runtime.block_on(async { tokio::time::sleep(Duration::from_millis(60)).await });

    // Should be able to enqueue again
    assert_eq!(queue.enqueue(4), EnqueueResult::Success);
}

#[test]
fn test_dequeue_all() {
    let mut queue = queue(10, 10, SECOND);

    // Enqueue some items
    for i in 0..5 {
        queue.enqueue(i);
    }

    // Dequeue all
    let items = queue.dequeue_all();

    assert_eq!(items.len(), 5);
    assert_eq!(items, vec![0, 1, 2, 3, 4]);
}

#[test]
fn test_dequeue_all_empty() {
    let mut queue = queue::<i32>(10, 10, SECOND);

    let items = queue.dequeue_all();
    assert_eq!(items.len(), 0);
    assert!(items.is_empty());
}

#[test]
fn rate_limit_is_checked_before_capacity() {
    let mut queue = queue(1, 1, SECOND);
    assert_eq!(queue.enqueue_at('a', 0), EnqueueResult::Success);
    // both limits are reached: the rate limit is reported
    assert_eq!(queue.enqueue_at('b', 10), EnqueueResult::RateLimitExceeded);
    // the window has passed, only the capacity stops the item
    assert_eq!(queue.enqueue_at('c', SECOND + 1), EnqueueResult::QueueFull);
    assert_eq!(queue.dequeue_all(), vec!['a']);
    assert_eq!(queue.enqueue_at('d', SECOND + 2), EnqueueResult::Success);
    assert_eq!(queue.dequeue(), Some('d'));
}

#[test]
fn window_end_is_inclusive() {
    let mut queue = queue(10, 1, 100);
    assert_eq!(queue.enqueue_at(1, 1_000), EnqueueResult::Success);
    // exactly `window` later the first request still counts
    assert_eq!(queue.enqueue_at(2, 1_100), EnqueueResult::RateLimitExceeded);
    // one nanosecond later it has left the window
    assert_eq!(queue.enqueue_at(3, 1_101), EnqueueResult::Success);
    assert_eq!(queue.dequeue_all(), vec![1, 3]);
}

#[test]
fn no_window_holds_more_than_the_limit() {
    // times in nanoseconds, nondecreasing; window 10, limit 3
    let mut queue = queue(100, 3, 10);
    let times: [u128; 10] = [0, 1, 2, 3, 5, 10, 11, 12, 13, 25];
    let mut accepted = Vec::new();
    for (i, t) in times.iter().enumerate() {
        if queue.enqueue_at(i, *t) == EnqueueResult::Success {
            accepted.push(*t);
        }
    }
    assert_eq!(accepted, vec![0, 1, 2, 11, 12, 13, 25]);
    for lo in 0..30u128 {
        let in_window = accepted.iter().filter(|t| lo <= **t && **t <= lo + 10).count();
        assert!(in_window <= 3);
    }
}

#[test]
fn zero_rate_limit_accepts_nothing() {
    let mut queue = queue(10, 0, SECOND);
    assert_eq!(queue.enqueue_at(1, 0), EnqueueResult::RateLimitExceeded);
    assert_eq!(queue.enqueue(2), EnqueueResult::RateLimitExceeded);
    assert!(queue.dequeue_all().is_empty());
}

#[test]
fn zero_capacity_holds_nothing() {
    let mut queue = queue(0, 10, SECOND);
    assert_eq!(queue.enqueue(1), EnqueueResult::QueueFull);
    assert_eq!(queue.dequeue(), None);
}

#[test]
fn rejected_items_are_not_counted() {
    let mut queue = queue(1, 2, SECOND);
    assert_eq!(queue.enqueue_at(1, 0), EnqueueResult::Success);
    assert_eq!(queue.enqueue_at(2, 0), EnqueueResult::QueueFull);
    assert_eq!(queue.enqueue_at(3, 0), EnqueueResult::QueueFull);
    assert_eq!(queue.dequeue(), Some(1));
    // only one request was recorded, so one more fits
    assert_eq!(queue.enqueue_at(4, 0), EnqueueResult::Success);
    assert_eq!(queue.enqueue_at(5, 0), EnqueueResult::RateLimitExceeded);
}

#[test]
fn tracker_counts_recorded_requests() {
    let mut tracker = RateTracker::new(2, 100);
    assert!(tracker.can_accept_at(0));
    tracker.record_request_at(0);
    assert!(tracker.can_accept_at(50));
    tracker.record_request_at(50);
    assert!(!tracker.can_accept_at(100));
    // the first request left the window
    assert!(tracker.can_accept_at(101));
    tracker.record_request_at(101);
    assert!(!tracker.can_accept_at(150));
}

#[test]
fn tracker_on_the_clock() {
    let mut tracker = RateTracker::new(1, SECOND);
    assert!(tracker.can_accept());
    tracker.record_request();
    assert!(!tracker.can_accept());
}
