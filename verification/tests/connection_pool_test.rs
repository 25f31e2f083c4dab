use mini_lsm_starter::connection_pool::GlobalRateLimiter;
use mini_lsm_starter::connection_pool::{
    AcquireOutcome, ConnectionPoolConfig, ConnectionRegistry, PeerAddr, TokenBucket,
};
use std::time::Duration;

#[test]
fn test_connection_pool_config() {
    println!("🔗 Starting connection pool config test...");

    let config = ConnectionPoolConfig {
        max_connections: 100,
        max_connections_per_ip: 10,
        idle_timeout: Duration::from_secs(300),
        rate_limit_rps: 1000,
        rate_limit_burst: 1500,
        rate_limit_window: Duration::from_secs(1),
        cleanup_interval: Duration::from_secs(60),
        max_request_size: 1024 * 1024,
    };

    assert_eq!(config.max_connections, 100);
    assert_eq!(config.max_connections_per_ip, 10);
    assert_eq!(config.rate_limit_rps, 1000);
    assert_eq!(config.rate_limit_burst, 1500);
    assert_eq!(config.max_request_size, 1024 * 1024);

    println!("✅ Connection pool config test completed");
}

const SEC: u64 = 1_000_000_000;

#[test]
fn default_pool_config() {
    let c = ConnectionPoolConfig::default();
    assert_eq!(c.max_connections, 1000);
    assert_eq!(c.max_connections_per_ip, 100);
    assert_eq!(c.idle_timeout, Duration::from_secs(300));
    assert_eq!(c.rate_limit_rps, 100);
    assert_eq!(c.rate_limit_burst, 200);
    assert_eq!(c.cleanup_interval, Duration::from_secs(60));
    assert_eq!(c.max_request_size, 64 * 1024);
}

#[test]
fn test_token_bucket() {
    let mut bucket = TokenBucket::new(10, 5, 0);
    assert!(bucket.try_consume(5, 0));
    assert!(bucket.try_consume(5, 0));
    assert!(!bucket.try_consume(1, 0));
    // 1.2 seconds at 5 tokens per second earns 6 tokens.
    assert!(bucket.try_consume(3, 1_200_000_000));
    assert_eq!(bucket.current_tokens(), 3);
}

#[test]
fn token_bucket_no_refill_within_a_tenth_of_a_second() {
    let mut bucket = TokenBucket::new(10, 1000, 0);
    assert!(bucket.try_consume(10, 0));
    assert!(!bucket.try_consume(1, 99_999_999));
    assert!(bucket.try_consume(1, 100_000_000));
    assert_eq!(bucket.current_tokens(), 10 - 1);
}

#[test]
fn token_bucket_caps_at_capacity() {
    let mut bucket = TokenBucket::new(4, 1000, 0);
    assert!(bucket.try_consume(4, 0));
    assert!(bucket.try_consume(0, 100 * SEC));
    assert_eq!(bucket.current_tokens(), 4);
}

fn addr(last: u8, port: u16) -> PeerAddr {
    PeerAddr { ip: 0xffff_7f00_0000 | last as u128, port }
}

#[test]
fn test_connection_pool() {
    let config = ConnectionPoolConfig {
        max_connections: 2,
        max_connections_per_ip: 1,
        ..Default::default()
    };
    let mut pool = ConnectionRegistry::new(&config);
    let a = addr(1, 8080);
    let first = pool.acquire(a, &config, 0);
    assert_eq!(first, AcquireOutcome::Accepted(1));
    assert_eq!(pool.acquire(a, &config, 0), AcquireOutcome::TooManyFromAddr);
    assert_eq!(pool.stats().rejected_connections, 1);
    assert!(pool.release(1));
    assert!(!pool.release(1));
    assert_eq!(pool.acquire(a, &config, 0), AcquireOutcome::Accepted(2));
}

#[test]
fn pool_waits_when_full_and_closes_by_address() {
    let config = ConnectionPoolConfig {
        max_connections: 2,
        max_connections_per_ip: 5,
        ..Default::default()
    };
    let mut pool = ConnectionRegistry::new(&config);
    let a = addr(1, 1);
    let b = addr(2, 1);
    assert_eq!(pool.acquire(a, &config, 0), AcquireOutcome::Accepted(1));
    assert_eq!(pool.acquire(b, &config, 0), AcquireOutcome::Accepted(2));
    assert_eq!(pool.acquire(a, &config, 0), AcquireOutcome::MustWait);
    assert_eq!(pool.connections_from(a), vec![1]);
    assert_eq!(pool.close_connections_from_ip(a), 1);
    assert_eq!(pool.active_connections_count(), 1);
    assert_eq!(pool.stats().active_connections, 1);
    assert_eq!(pool.stats().total_connections, 2);
}

#[test]
fn pool_rate_limit_and_idle() {
    let config = ConnectionPoolConfig {
        rate_limit_rps: 1,
        rate_limit_burst: 2,
        ..Default::default()
    };
    let mut pool = ConnectionRegistry::new(&config);
    assert_eq!(pool.acquire(addr(3, 9), &config, 0), AcquireOutcome::Accepted(1));
    assert!(pool.check_rate_limit(1, 1, 0));
    assert!(pool.check_rate_limit(1, 1, 0));
    assert!(!pool.check_rate_limit(1, 1, 0));
    assert_eq!(pool.stats().rate_limited_requests, 1);
    assert!(!pool.check_rate_limit(7, 1, 0));
    assert_eq!(pool.idle_connections(10 * SEC, 5 * SEC), vec![1]);
    assert_eq!(pool.idle_connections(4 * SEC, 5 * SEC), Vec::<u64>::new());
}

#[test]
fn global_rate_limit() {
    let mut limiter = GlobalRateLimiter::new(10, 2, 0);
    assert!(limiter.check_rate_limit(2, 0));
    assert!(!limiter.check_rate_limit(1, 50_000_000));
    // Half a second at ten per second earns five tokens, capped at two.
    assert!(limiter.check_rate_limit(2, 500_000_000));
}
