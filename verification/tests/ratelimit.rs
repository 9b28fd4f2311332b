use ferrous_node::network::ratelimit::RateLimiter;
use std::time::{Duration, Instant};

const SECOND: u64 = 1_000_000_000;

#[test]
fn test_rate_limit_allows() {
    let mut limiter = RateLimiter::new(SECOND, 5);
    for _ in 0..5 {
        assert!(limiter.check());
    }
    assert!(!limiter.check());
}

#[test]
fn test_rate_limit_window_cleanup() {
    let mut limiter = RateLimiter::new(SECOND / 10, 1);
    assert!(limiter.check());
    assert!(!limiter.check());
    let start = Instant::now();
    while start.elapsed() < Duration::from_millis(150) {}
    assert!(limiter.check());
}

#[test]
fn window_moves_on() {
    let mut limiter = RateLimiter::new(100, 2);
    assert!(limiter.check_at(0));
    assert!(limiter.check_at(50));
    assert!(!limiter.check_at(60));
    assert_eq!(limiter.current_rate_at(60), 2);
    // The first event is older than the window now
    assert!(limiter.check_at(101));
    assert!(!limiter.check_at(102));
    assert_eq!(limiter.current_rate_at(1000), 0);
}
