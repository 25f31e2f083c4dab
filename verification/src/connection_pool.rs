//! Connection limits and rate limiting of the network server: the pool's
//! configuration, a token bucket per client, and the registry of open
//! connections. Times are nanoseconds on the caller's monotonic clock.
use vstd::prelude::*;

verus! {

/// Calls `Duration::from_secs`; nothing is claimed of the duration, which
/// stays opaque here.
#[verifier::external_body]
pub(crate) fn duration_from_secs(secs: u64) -> (r: std::time::Duration) {
    std::time::Duration::from_secs(secs)
}

/// Configuration of the connection pool and its rate limiting.
#[derive(Debug, Clone, Copy)]
pub struct ConnectionPoolConfig {
    /// Maximum number of concurrent connections
    pub max_connections: usize,
    /// Maximum connections per IP address
    pub max_connections_per_ip: usize,
    /// Connection idle timeout
    pub idle_timeout: std::time::Duration,
    /// Rate limit: requests per second per client
    pub rate_limit_rps: u32,
    /// Token bucket capacity (burst size)
    pub rate_limit_burst: u32,
    /// Rate limit window duration
    pub rate_limit_window: std::time::Duration,
    /// Connection cleanup interval
    pub cleanup_interval: std::time::Duration,
    /// Maximum request size per connection
    pub max_request_size: usize,
}

impl Default for ConnectionPoolConfig {
    /// A thousand connections, a hundred per address, a five-minute idle
    /// timeout, a hundred requests per second in bursts of two hundred, a
    /// one-second window, cleanup every minute, and requests of up to 64 KiB.
    fn default() -> (r: Self)
        ensures
            r.max_connections == 1000,
            r.max_connections_per_ip == 100,
            r.rate_limit_rps == 100,
            r.rate_limit_burst == 200,
            r.max_request_size == 65536,
    {
        ConnectionPoolConfig {
            max_connections: 1000,
            max_connections_per_ip: 100,
            idle_timeout: duration_from_secs(300),
            rate_limit_rps: 100,
            rate_limit_burst: 200,
            rate_limit_window: duration_from_secs(1),
            cleanup_interval: duration_from_secs(60),
            max_request_size: 64 * 1024,
        }
    }
}

/// Counters of the pool.
#[derive(Debug, Default, Clone, Copy)]
pub struct ConnectionPoolStats {
    /// Total connections created
    pub total_connections: u64,
    /// Total connections rejected
    pub rejected_connections: u64,
    /// Total rate limited requests
    pub rate_limited_requests: u64,
    /// Current active connections
    pub active_connections: usize,
}

/// Nanoseconds in a second.
pub const NANOS_PER_SEC: u64 = 1_000_000_000;

/// The shortest time between two refills, in nanoseconds.
pub const MIN_REFILL_NANOS: u64 = 100_000_000;

/// A token bucket: a client may spend tokens up to the bucket's capacity,
/// and tokens flow back at a fixed rate per second.
pub struct TokenBucket {
    tokens: u64,
    capacity: u64,
    refill_rate: u64,
    last_refill: u64,
}

/// The tokens earned over `elapsed` nanoseconds at `rate` tokens per second,
/// rounded down (and capped at the largest count).
pub open spec fn earned(elapsed: nat, rate: nat) -> nat {
    let t = elapsed * rate / (NANOS_PER_SEC as nat);
    if t <= u64::MAX {
        t
    } else {
        u64::MAX as nat
    }
}

/// A bucket's tokens after a refill at `now`, and when it was last refilled:
/// nothing happens within a tenth of a second of the last refill, nor while
/// no whole token has been earned; otherwise the earned tokens are added up
/// to the capacity.
pub open spec fn spec_refill(tokens: u64, capacity: u64, rate: u64, last: u64, now: u64) -> (u64, u64) {
    let elapsed: nat = if now >= last { (now - last) as nat } else { 0 };
    let add = earned(elapsed, rate as nat);
    if elapsed < MIN_REFILL_NANOS || add == 0 {
        (tokens, last)
    } else if tokens + add >= capacity {
        (capacity, now)
    } else {
        ((tokens + add) as u64, now)
    }
}

impl TokenBucket {
    pub closed spec fn tokens(&self) -> u64 {
        self.tokens
    }

    pub closed spec fn capacity(&self) -> u64 {
        self.capacity
    }

    pub closed spec fn refill_rate(&self) -> u64 {
        self.refill_rate
    }

    pub closed spec fn last_refill(&self) -> u64 {
        self.last_refill
    }

    /// A bucket never holds more than its capacity.
    pub closed spec fn wf(&self) -> bool {
        self.tokens <= self.capacity
    }

    /// A full bucket, last refilled at `now`.
    pub fn new(capacity: u64, refill_rate: u64, now: u64) -> (r: Self)
        ensures
            r.wf(),
            r.tokens() == capacity,
            r.capacity() == capacity,
            r.refill_rate() == refill_rate,
            r.last_refill() == now,
    {
        TokenBucket { tokens: capacity, capacity, refill_rate, last_refill: now }
    }

    /// The tokens the bucket holds.
    pub fn current_tokens(&self) -> (r: u64)
        ensures
            r == self.tokens(),
    {
        self.tokens
    }

    fn refill(&mut self, now: u64)
        requires
            old(self).wf(),
        ensures
            final(self).wf(),
            (final(self).tokens(), final(self).last_refill()) == spec_refill(
                old(self).tokens(),
                old(self).capacity(),
                old(self).refill_rate(),
                old(self).last_refill(),
                now,
            ),
            final(self).capacity() == old(self).capacity(),
            final(self).refill_rate() == old(self).refill_rate(),
    {
        let elapsed: u64 = if now >= self.last_refill {
            now - self.last_refill
        } else {
            0
        };
        if elapsed < MIN_REFILL_NANOS {
            return ;
        }
        proof {
            assert((elapsed as nat) * (self.refill_rate as nat) <= u128::MAX) by (nonlinear_arith)
                requires
                    elapsed <= u64::MAX,
                    self.refill_rate <= u64::MAX,
            {
                assert((elapsed as nat) * (self.refill_rate as nat) <= (u64::MAX as nat) * (u64::MAX as nat));
            }
        }
        let product: u128 = (elapsed as u128) * (self.refill_rate as u128);
        let quotient: u128 = product / (NANOS_PER_SEC as u128);
        let add: u64 = if quotient <= (u64::MAX as u128) {
            quotient as u64
        } else {
            u64::MAX
        };
        if add == 0 {
            return ;
        }
        if add >= self.capacity - self.tokens {
            self.tokens = self.capacity;
        } else {
            self.tokens = self.tokens + add;
        }
        self.last_refill = now;
    }

    /// Refills the bucket for time `now`, then spends `tokens` if it holds
    /// that many: whether they were spent.
    pub fn try_consume(&mut self, tokens: u64, now: u64) -> (r: bool)
        requires
            old(self).wf(),
        ensures
            final(self).wf(),
            final(self).capacity() == old(self).capacity(),
            final(self).refill_rate() == old(self).refill_rate(),
            ({
                let (t, last) = spec_refill(
                    old(self).tokens(),
                    old(self).capacity(),
                    old(self).refill_rate(),
                    old(self).last_refill(),
                    now,
                );
                &&& final(self).last_refill() == last
                &&& r == (t >= tokens)
                &&& r ==> final(self).tokens() == t - tokens
                &&& !r ==> final(self).tokens() == t
            }),
    {
        self.refill(now);
        if self.tokens >= tokens {
            self.tokens = self.tokens - tokens;
            true
        } else {
            false
        }
    }
}

/// A bucket as plain values: its tokens, capacity, refill rate and the time
/// of its last refill.
pub open spec fn bucket_view(b: TokenBucket) -> (u64, u64, u64, u64) {
    (b.tokens(), b.capacity(), b.refill_rate(), b.last_refill())
}

/// Spending `tokens` from bucket `b` at `now`: whether they were spent, and
/// the bucket after the refill and the spending.
pub open spec fn spec_spend(b: (u64, u64, u64, u64), tokens: u64, now: u64) -> (bool, (u64, u64, u64, u64)) {
    let (t, last) = spec_refill(b.0, b.1, b.2, b.3, now);
    if t >= tokens {
        (true, ((t - tokens) as u64, b.1, b.2, last))
    } else {
        (false, (t, b.1, b.2, last))
    }
}

/// Spending tokens never leaves a bucket with more than it held after the
/// refill, and a bucket refilled over any span never exceeds its capacity.
pub proof fn lemma_refill_bounded(tokens: u64, capacity: u64, rate: u64, last: u64, now: u64)
    requires
        tokens <= capacity,
    ensures
        spec_refill(tokens, capacity, rate, last, now).0 <= capacity,
        spec_refill(tokens, capacity, rate, last, now).0 >= tokens,
{
}

/// A refill that earns tokens, at least a tenth of a second after the last
/// one, moves the refill time to `now`, whether or not the bucket fills up,
/// so the same span is never credited twice; otherwise the refill time
/// stays.
pub proof fn lemma_refill_moves_time(tokens: u64, capacity: u64, rate: u64, last: u64, now: u64)
    ensures
        ({
            let elapsed: nat = if now >= last { (now - last) as nat } else { 0 };
            &&& elapsed >= MIN_REFILL_NANOS && earned(elapsed, rate as nat) > 0 ==> spec_refill(
                tokens,
                capacity,
                rate,
                last,
                now,
            ).1 == now
            &&& !(elapsed >= MIN_REFILL_NANOS && earned(elapsed, rate as nat) > 0) ==> spec_refill(
                tokens,
                capacity,
                rate,
                last,
                now,
            ) == (tokens, last)
        }),
{
}

/// Two refills in a row: the second credits only the time since the first
/// one moved the refill time, so a bucket refilled at `t1` (and emptied)
/// earns at `t2` no more than the span `t2 - t1` is worth.
pub proof fn lemma_refill_no_double_credit(capacity: u64, rate: u64, last: u64, t1: u64, t2: u64)
    requires
        last <= t1 <= t2,
        t1 - last >= MIN_REFILL_NANOS,
        earned((t1 - last) as nat, rate as nat) > 0,
    ensures
        spec_refill(0, capacity, rate, spec_refill(0, capacity, rate, last, t1).1, t2).0 <= earned(
            (t2 - t1) as nat,
            rate as nat,
        ),
{
}

/// A rate limit shared by all clients.
pub struct GlobalRateLimiter {
    token_bucket: TokenBucket,
}

impl GlobalRateLimiter {
    pub closed spec fn bucket(&self) -> TokenBucket {
        self.token_bucket
    }

    /// A full bucket of `burst` tokens refilling at `rps` per second.
    pub fn new(rps: u64, burst: u64, now: u64) -> (r: Self)
        ensures
            r.bucket().wf(),
            r.bucket().tokens() == burst,
            r.bucket().capacity() == burst,
            r.bucket().refill_rate() == rps,
    {
        GlobalRateLimiter { token_bucket: TokenBucket::new(burst, rps, now) }
    }

    /// Spends `tokens` at `now`, if the bucket holds them after a refill.
    pub fn check_rate_limit(&mut self, tokens: u64, now: u64) -> (r: bool)
        requires
            old(self).bucket().wf(),
        ensures
            final(self).bucket().wf(),
            ({
                let b = old(self).bucket();
                r == (spec_refill(b.tokens(), b.capacity(), b.refill_rate(), b.last_refill(), now).0 >= tokens)
            }),
    {
        self.token_bucket.try_consume(tokens, now)
    }
}

/// A client's address: an IP address (IPv4 addresses mapped into IPv6) and
/// a port.
#[derive(Debug, Clone, Copy, PartialEq, Eq, Structural)]
pub struct PeerAddr {
    pub ip: u128,
    pub port: u16,
}

/// An open connection: its id, the client, when it was last active, how many
/// of its requests are running, and its counters and rate limiter.
pub struct ConnectionInfo {
    pub id: u64,
    pub addr: PeerAddr,
    pub created_at: u64,
    pub last_activity: u64,
    pub active_requests: usize,
    pub total_requests: u64,
    pub total_bytes: u64,
    pub rate_limiter: TokenBucket,
}

impl ConnectionInfo {
    /// A new connection at time `now`, with a full bucket of the pool's
    /// burst size refilling at its rate.
    pub fn new(id: u64, addr: PeerAddr, config: &ConnectionPoolConfig, now: u64) -> (r: Self)
        ensures
            r.id == id,
            r.addr == addr,
            r.created_at == now,
            r.last_activity == now,
            r.active_requests == 0,
            r.total_requests == 0,
            r.total_bytes == 0,
            r.rate_limiter.wf(),
            r.rate_limiter.tokens() == config.rate_limit_burst,
            r.rate_limiter.capacity() == config.rate_limit_burst,
            r.rate_limiter.refill_rate() == config.rate_limit_rps,
            r.rate_limiter.last_refill() == now,
    {
        ConnectionInfo {
            id,
            addr,
            created_at: now,
            last_activity: now,
            active_requests: 0,
            total_requests: 0,
            total_bytes: 0,
            rate_limiter: TokenBucket::new(config.rate_limit_burst as u64, config.rate_limit_rps as u64, now),
        }
    }

    /// Records activity at `now`.
    pub fn update_activity(&mut self, now: u64)
        ensures
            final(self).last_activity == now,
            final(self).id == old(self).id,
            final(self).addr == old(self).addr,
            final(self).active_requests == old(self).active_requests,
    {
        self.last_activity = now;
    }

    /// Whether the connection has been inactive for longer than `timeout`.
    pub fn is_idle(&self, now: u64, timeout: u64) -> (r: bool)
        ensures
            r == ((if now >= self.last_activity { now - self.last_activity } else { 0 }) > timeout),
    {
        let idle = if now >= self.last_activity {
            now - self.last_activity
        } else {
            0
        };
        idle > timeout
    }

    /// Counts a request that starts (counters wrap as atomic counters do).
    pub fn start_request(&mut self)
        ensures
            final(self).active_requests == if old(self).active_requests == usize::MAX { 0 } else {
                (old(self).active_requests + 1) as usize
            },
            final(self).total_requests == if old(self).total_requests == u64::MAX { 0 } else {
                (old(self).total_requests + 1) as u64
            },
            final(self).id == old(self).id,
            final(self).addr == old(self).addr,
            final(self).last_activity == old(self).last_activity,
    {
        self.active_requests = if self.active_requests == usize::MAX {
            0
        } else {
            self.active_requests + 1
        };
        self.total_requests = if self.total_requests == u64::MAX {
            0
        } else {
            self.total_requests + 1
        };
    }

    /// Counts a request that finished after sending `bytes_transferred`
    /// bytes (counters wrap as atomic counters do).
    pub fn finish_request(&mut self, bytes_transferred: u64)
        ensures
            final(self).active_requests == if old(self).active_requests == 0 { usize::MAX } else {
                (old(self).active_requests - 1) as usize
            },
            final(self).total_bytes == (old(self).total_bytes + bytes_transferred) % 0x1_0000_0000_0000_0000,
            final(self).id == old(self).id,
            final(self).addr == old(self).addr,
            final(self).last_activity == old(self).last_activity,
    {
        self.active_requests = if self.active_requests == 0 {
            usize::MAX
        } else {
            self.active_requests - 1
        };
        self.total_bytes = wrapping_add_u64(self.total_bytes, bytes_transferred);
    }

    /// Spends `tokens` of the connection's rate limit at `now`.
    pub fn check_rate_limit(&mut self, tokens: u64, now: u64) -> (r: bool)
        requires
            old(self).rate_limiter.wf(),
        ensures
            final(self).rate_limiter.wf(),
            final(self).id == old(self).id,
            final(self).addr == old(self).addr,
            ({
                let b = old(self).rate_limiter;
                let (t, _) = spec_refill(b.tokens(), b.capacity(), b.refill_rate(), b.last_refill(), now);
                r == (t >= tokens)
            }),
            (r, bucket_view(final(self).rate_limiter)) == spec_spend(bucket_view(old(self).rate_limiter), tokens, now),
    {
        self.rate_limiter.try_consume(tokens, now)
    }
}

fn wrapping_add_u64(a: u64, b: u64) -> (r: u64)
    ensures
        r == (a + b) % 0x1_0000_0000_0000_0000,
{
    if a <= u64::MAX - b {
        a + b
    } else {
        let d = u64::MAX - a;
        b - d - 1
    }
}

/// What happens to a client that asks for a connection.
#[derive(Debug, Clone, Copy, PartialEq, Eq, Structural)]
pub enum AcquireOutcome {
    /// It gets a connection with this id.
    Accepted(u64),
    /// It already holds as many connections as one address may.
    TooManyFromAddr,
    /// Every connection slot is taken; it waits for one to be released.
    MustWait,
}

/// The open connections, oldest first, and the id the next one gets.
pub struct ConnectionRegistry {
    max_connections: usize,
    max_connections_per_ip: usize,
    next_connection_id: u64,
    connections: Vec<ConnectionInfo>,
    stats: ConnectionPoolStats,
}

/// The ids of the connections from an address, oldest first.
pub open spec fn ids_from(conns: Seq<(u64, PeerAddr)>, addr: PeerAddr) -> Seq<u64>
    decreases conns.len(),
{
    if conns.len() == 0 {
        Seq::empty()
    } else {
        let prev = ids_from(conns.drop_last(), addr);
        if conns.last().1 == addr {
            prev.push(conns.last().0)
        } else {
            prev
        }
    }
}

impl ConnectionRegistry {
    /// The open connections, oldest first: id and address.
    pub closed spec fn open_connections(&self) -> Seq<(u64, PeerAddr)> {
        self.connections@.map_values(|c: ConnectionInfo| (c.id, c.addr))
    }

    pub closed spec fn next_id(&self) -> u64 {
        self.next_connection_id
    }

    pub closed spec fn limits(&self) -> (usize, usize) {
        (self.max_connections, self.max_connections_per_ip)
    }

    pub closed spec fn spec_stats(&self) -> ConnectionPoolStats {
        self.stats
    }

    /// The rate limiters of the open connections, in the order of
    /// `open_connections`.
    pub closed spec fn buckets(&self) -> Seq<(u64, u64, u64, u64)> {
        self.connections@.map_values(|c: ConnectionInfo| bucket_view(c.rate_limiter))
    }

    /// Ids are distinct and below the next id, no more connections are open
    /// than allowed, every rate limiter is well formed, and the active count
    /// is the number of open connections.
    pub closed spec fn wf(&self) -> bool {
        &&& forall|i: int, j: int|
            0 <= i < j < self.connections@.len() ==> #[trigger] self.connections@[i].id
                != #[trigger] self.connections@[j].id
        &&& forall|i: int|
            0 <= i < self.connections@.len() ==> #[trigger] self.connections@[i].id < self.next_connection_id
        &&& forall|i: int| 0 <= i < self.connections@.len() ==> #[trigger] self.connections@[i].rate_limiter.wf()
        &&& self.connections@.len() <= self.max_connections
        &&& self.stats.active_connections == self.connections@.len()
    }

    /// An empty pool; the first connection gets id one.
    pub fn new(config: &ConnectionPoolConfig) -> (r: Self)
        ensures
            r.wf(),
            r.open_connections() == Seq::<(u64, PeerAddr)>::empty(),
            r.next_id() == 1,
            r.limits() == (config.max_connections, config.max_connections_per_ip),
            r.spec_stats() == (ConnectionPoolStats {
                total_connections: 0,
                rejected_connections: 0,
                rate_limited_requests: 0,
                active_connections: 0,
            }),
    {
        let r = ConnectionRegistry {
            max_connections: config.max_connections,
            max_connections_per_ip: config.max_connections_per_ip,
            next_connection_id: 1,
            connections: Vec::new(),
            stats: ConnectionPoolStats {
                total_connections: 0,
                rejected_connections: 0,
                rate_limited_requests: 0,
                active_connections: 0,
            },
        };
        assert(r.open_connections() =~= Seq::<(u64, PeerAddr)>::empty());
        r
    }

    /// The id the next connection gets.
    pub fn next_connection_id(&self) -> (r: u64)
        ensures
            r == self.next_id(),
    {
        self.next_connection_id
    }

    /// The number of open connections.
    pub fn active_connections_count(&self) -> (r: usize)
        ensures
            r == self.open_connections().len(),
    {
        self.connections.len()
    }

    /// The pool's counters.
    pub fn stats(&self) -> (r: ConnectionPoolStats)
        ensures
            r == self.spec_stats(),
    {
        self.stats
    }

    fn count_from(&self, addr: PeerAddr) -> (r: usize)
        ensures
            r == ids_from(self.open_connections(), addr).len(),
    {
        let ghost all = self.open_connections();
        let mut n: usize = 0;
        let mut i: usize = 0;
        while i < self.connections.len()
            invariant
                0 <= i <= self.connections@.len(),
                all == self.open_connections(),
                all.len() == self.connections@.len(),
                n == ids_from(all.take(i as int), addr).len(),
                n <= i,
            decreases self.connections@.len() - i,
        {
            assert(all.take(i + 1).drop_last() =~= all.take(i as int));
            assert(all[i as int] == (self.connections@[i as int].id, self.connections@[i as int].addr));
            if self.connections[i].addr == addr {
                n = n + 1;
            }
            i = i + 1;
        }
        assert(all.take(all.len() as int) =~= all);
        n
    }

    /// A client at `addr` asks for a connection at time `now`: it waits while
    /// every slot is taken; it is refused (and counted as rejected) when its
    /// address already holds as many connections as allowed; otherwise it
    /// gets a new connection with the next id.
    pub fn acquire(&mut self, addr: PeerAddr, config: &ConnectionPoolConfig, now: u64) -> (r: AcquireOutcome)
        requires
            old(self).wf(),
            old(self).next_id() < u64::MAX,
        ensures
            final(self).wf(),
            final(self).limits() == old(self).limits(),
            old(self).open_connections().len() >= old(self).limits().0 ==> r == AcquireOutcome::MustWait
                && final(self).open_connections() == old(self).open_connections() && final(self).next_id()
                == old(self).next_id(),
            old(self).open_connections().len() < old(self).limits().0 && ids_from(
                old(self).open_connections(),
                addr,
            ).len() >= old(self).limits().1 ==> r == AcquireOutcome::TooManyFromAddr
                && final(self).open_connections() == old(self).open_connections() && final(self).next_id()
                == old(self).next_id(),
            old(self).open_connections().len() < old(self).limits().0 && ids_from(
                old(self).open_connections(),
                addr,
            ).len() < old(self).limits().1 ==> r == AcquireOutcome::Accepted(old(self).next_id())
                && final(self).open_connections() == old(self).open_connections().push(
                (old(self).next_id(), addr),
            ) && final(self).next_id() == old(self).next_id() + 1,
    {
        if self.connections.len() >= self.max_connections {
            return AcquireOutcome::MustWait;
        }
        if self.count_from(addr) >= self.max_connections_per_ip {
            self.stats.rejected_connections = wrapping_add_u64(self.stats.rejected_connections, 1);
            return AcquireOutcome::TooManyFromAddr;
        }
        let id = self.next_connection_id;
        self.next_connection_id = id + 1;
        let info = ConnectionInfo::new(id, addr, config, now);
        let ghost before = self.connections@;
        self.connections.push(info);
        self.stats.total_connections = wrapping_add_u64(self.stats.total_connections, 1);
        self.stats.active_connections = self.stats.active_connections + 1;
        proof {
            assert(self.connections@.drop_last() =~= before);
            assert(self.open_connections() =~= before.map_values(|c: ConnectionInfo| (c.id, c.addr)).push(
                (id, addr),
            ));
        }
        AcquireOutcome::Accepted(id)
    }

    fn find(&self, id: u64) -> (r: Option<usize>)
        ensures
            match r {
                Some(i) => i < self.connections@.len() && self.connections@[i as int].id == id,
                None => forall|j: int| 0 <= j < self.connections@.len() ==> #[trigger] self.connections@[j].id != id,
            },
    {
        let mut i: usize = 0;
        while i < self.connections.len()
            invariant
                0 <= i <= self.connections@.len(),
                forall|j: int| 0 <= j < i ==> #[trigger] self.connections@[j].id != id,
            decreases self.connections@.len() - i,
        {
            if self.connections[i].id == id {
                return Some(i);
            }
            i = i + 1;
        }
        None
    }

    /// Releases a connection: whether it was open. The others stay in order.
    pub fn release(&mut self, id: u64) -> (r: bool)
        requires
            old(self).wf(),
        ensures
            final(self).wf(),
            final(self).limits() == old(self).limits(),
            final(self).next_id() == old(self).next_id(),
            r == exists|i: int| 0 <= i < old(self).open_connections().len() && #[trigger] old(self).open_connections()[i].0 == id,
            final(self).open_connections() == old(self).open_connections().filter(|c: (u64, PeerAddr)| c.0 != id),
    {
        let ghost before = self.connections@;
        let ghost old_open = self.open_connections();
        match self.find(id) {
            Some(i) => {
                self.connections.remove(i);
                self.stats.active_connections = self.stats.active_connections - 1;
                proof {
                    assert(self.connections@ =~= before.remove(i as int));
                    assert(old_open[i as int].0 == id);
                    lemma_filter_out_unique(old_open, i as int, id);
                    assert(self.open_connections() =~= old_open.remove(i as int));
                    assert forall|a: int, b: int| 0 <= a < b < self.connections@.len() implies #[trigger] self.connections@[a].id
                        != #[trigger] self.connections@[b].id by {
                        let a0 = if a < i { a } else { a + 1 };
                        let b0 = if b < i { b } else { b + 1 };
                        assert(self.connections@[a] == before[a0]);
                        assert(self.connections@[b] == before[b0]);
                    }
                    assert forall|a: int| 0 <= a < self.connections@.len() implies #[trigger] self.connections@[a].id
                        < self.next_connection_id && self.connections@[a].rate_limiter.wf() by {
                        let a0 = if a < i { a } else { a + 1 };
                        assert(self.connections@[a] == before[a0]);
                    }
                }
                true
            },
            None => {
                proof {
                    assert forall|j: int| 0 <= j < old_open.len() implies #[trigger] old_open[j].0 != id by {
                        assert(old_open[j].0 == before[j].id);
                    }
                    lemma_filter_none(old_open, id);
                }
                false
            },
        }
    }

    /// Spends `tokens` of a connection's rate limit at `now`: whether the
    /// connection is open and had them; a refusal of an open connection is
    /// counted.
    pub fn check_rate_limit(&mut self, id: u64, tokens: u64, now: u64) -> (r: bool)
        requires
            old(self).wf(),
        ensures
            final(self).wf(),
            final(self).open_connections() == old(self).open_connections(),
            final(self).next_id() == old(self).next_id(),
            final(self).limits() == old(self).limits(),
            r ==> exists|i: int| 0 <= i < old(self).open_connections().len() && #[trigger] old(self).open_connections()[i].0 == id,
            (forall|i: int| 0 <= i < old(self).open_connections().len() ==> #[trigger] old(self).open_connections()[i].0 != id)
                ==> !r && final(self).buckets() == old(self).buckets() && final(self).spec_stats() == old(self).spec_stats(),
            forall|i: int|
                0 <= i < old(self).open_connections().len() && #[trigger] old(self).open_connections()[i].0 == id ==> {
                    let (ok, b) = spec_spend(old(self).buckets()[i], tokens, now);
                    let st = old(self).spec_stats();
                    &&& r == ok
                    &&& final(self).buckets() == old(self).buckets().update(i, b)
                    &&& final(self).spec_stats() == (ConnectionPoolStats {
                        rate_limited_requests: if ok {
                            st.rate_limited_requests
                        } else {
                            ((st.rate_limited_requests + 1) % 0x1_0000_0000_0000_0000) as u64
                        },
                        ..st
                    })
                },
    {
        let ghost old_open = self.open_connections();
        match self.find(id) {
            Some(i) => {
                let ghost before = self.connections@;
                let mut c = self.connections.remove(i);
                let allowed = c.check_rate_limit(tokens, now);
                self.connections.insert(i, c);
                if !allowed {
                    self.stats.rate_limited_requests = wrapping_add_u64(self.stats.rate_limited_requests, 1);
                }
                proof {
                    assert forall|a: int| 0 <= a < self.connections@.len() implies (#[trigger] self.connections@[a]).id
                        == before[a].id && self.connections@[a].addr == before[a].addr
                        && self.connections@[a].rate_limiter.wf() by {
                        if a != i {
                            assert(self.connections@[a] == before[a]);
                        }
                    }
                    assert(self.open_connections() =~= before.map_values(|c: ConnectionInfo| (c.id, c.addr)));
                    assert(old_open[i as int].0 == id);
                    assert(self.buckets() =~= before.map_values(|c: ConnectionInfo| bucket_view(c.rate_limiter)).update(
                        i as int,
                        bucket_view(self.connections@[i as int].rate_limiter),
                    ));
                    assert forall|j: int| 0 <= j < old_open.len() && #[trigger] old_open[j].0 == id implies j == i by {
                        assert(old_open[j].0 == before[j].id);
                    }
                }
                allowed
            },
            None => false,
        }
    }

    /// The ids of the connections from an address, oldest first.
    pub fn connections_from(&self, addr: PeerAddr) -> (r: Vec<u64>)
        ensures
            r@ == ids_from(self.open_connections(), addr),
    {
        let ghost all = self.open_connections();
        let mut out: Vec<u64> = Vec::new();
        let mut i: usize = 0;
        while i < self.connections.len()
            invariant
                0 <= i <= self.connections@.len(),
                all == self.open_connections(),
                all.len() == self.connections@.len(),
                out@ == ids_from(all.take(i as int), addr),
            decreases self.connections@.len() - i,
        {
            assert(all.take(i + 1).drop_last() =~= all.take(i as int));
            assert(all[i as int] == (self.connections@[i as int].id, self.connections@[i as int].addr));
            if self.connections[i].addr == addr {
                out.push(self.connections[i].id);
            }
            i = i + 1;
        }
        assert(all.take(all.len() as int) =~= all);
        out
    }

    /// Closes every connection from an address: how many there were.
    pub fn close_connections_from_ip(&mut self, addr: PeerAddr) -> (r: usize)
        requires
            old(self).wf(),
        ensures
            final(self).wf(),
            r == ids_from(old(self).open_connections(), addr).len(),
            ids_from(final(self).open_connections(), addr).len() == 0,
    {
        let ids = self.connections_from(addr);
        let closed = ids.len();
        let mut i: usize = 0;
        while i < ids.len()
            invariant
                0 <= i <= ids@.len(),
                self.wf(),
                ids_from(self.open_connections(), addr) == ids@.skip(i as int),
            decreases ids@.len() - i,
        {
            let ghost before = self.open_connections();
            self.release(ids[i]);
            proof {
                lemma_ids_from_filter(before, addr, ids@[i as int]);
                assert(ids@.skip(i as int).drop_first() =~= ids@.skip(i + 1));
            }
            i = i + 1;
        }
        closed
    }

    /// Each open connection, oldest first: id, when it was last active, and
    /// how many of its requests are running.
    pub closed spec fn activity(&self) -> Seq<(u64, u64, usize)> {
        self.connections@.map_values(|c: ConnectionInfo| (c.id, c.last_activity, c.active_requests))
    }

    /// The ids of connections idle for longer than `timeout` at `now` with
    /// no request running, oldest first.
    pub fn idle_connections(&self, now: u64, timeout: u64) -> (r: Vec<u64>)
        ensures
            r@ == idle_ids(self.activity(), now, timeout),
    {
        let ghost all = self.activity();
        let mut out: Vec<u64> = Vec::new();
        let mut i: usize = 0;
        while i < self.connections.len()
            invariant
                0 <= i <= self.connections@.len(),
                all == self.activity(),
                all.len() == self.connections@.len(),
                out@ == idle_ids(all.take(i as int), now, timeout),
            decreases self.connections@.len() - i,
        {
            assert(all.take(i + 1).drop_last() =~= all.take(i as int));
            let c = &self.connections[i];
            assert(all[i as int] == (c.id, c.last_activity, c.active_requests));
            if c.is_idle(now, timeout) && c.active_requests == 0 {
                out.push(c.id);
            }
            i = i + 1;
        }
        assert(all.take(all.len() as int) =~= all);
        out
    }
}

/// The ids, oldest first, of the connections idle for longer than `timeout`
/// at `now` with no request running.
pub open spec fn idle_ids(acts: Seq<(u64, u64, usize)>, now: u64, timeout: u64) -> Seq<u64>
    decreases acts.len(),
{
    if acts.len() == 0 {
        Seq::empty()
    } else {
        let prev = idle_ids(acts.drop_last(), now, timeout);
        let (id, last, active) = acts.last();
        if (if now >= last { now - last } else { 0 }) > timeout && active == 0 {
            prev.push(id)
        } else {
            prev
        }
    }
}

/// What the idle sweep reports: every id reported belongs to a connection
/// idle for longer than the timeout with no request running, and every such
/// connection is reported; a connection with a request running is never
/// reported (ids being distinct).
pub proof fn lemma_idle_ids_exact(acts: Seq<(u64, u64, usize)>, now: u64, timeout: u64)
    ensures
        forall|j: int|
            0 <= j < idle_ids(acts, now, timeout).len() ==> exists|i: int|
                0 <= i < acts.len() && (#[trigger] acts[i]).0 == (#[trigger] idle_ids(acts, now, timeout)[j])
                    && acts[i].2 == 0
                    && (if now >= acts[i].1 { now - acts[i].1 } else { 0 }) > timeout,
        forall|i: int|
            0 <= i < acts.len() && (#[trigger] acts[i]).2 == 0 && (if now >= acts[i].1 {
                now - acts[i].1
            } else {
                0
            }) > timeout ==> idle_ids(acts, now, timeout).contains(acts[i].0),
        (forall|a: int, b: int| 0 <= a < b < acts.len() ==> #[trigger] acts[a].0 != #[trigger] acts[b].0)
            ==> forall|i: int|
            0 <= i < acts.len() && (#[trigger] acts[i]).2 > 0 ==> !idle_ids(acts, now, timeout).contains(acts[i].0),
    decreases acts.len(),
{
    if acts.len() > 0 {
        let init = acts.drop_last();
        lemma_idle_ids_exact(init, now, timeout);
        let prev = idle_ids(init, now, timeout);
        let cur = idle_ids(acts, now, timeout);
        let l = acts.len() - 1;
        assert forall|j: int| 0 <= j < cur.len() implies exists|i: int|
            0 <= i < acts.len() && (#[trigger] acts[i]).0 == (#[trigger] cur[j]) && acts[i].2 == 0 && (if now >= acts[i].1 {
                now - acts[i].1
            } else {
                0
            }) > timeout by {
            if j < prev.len() {
                assert(cur[j] == prev[j]);
                assert(prev[j] == idle_ids(init, now, timeout)[j]);
                let i = choose|i: int|
                    0 <= i < init.len() && (#[trigger] init[i]).0 == prev[j] && init[i].2 == 0 && (if now
                        >= init[i].1 {
                        now - init[i].1
                    } else {
                        0
                    }) > timeout;
                assert(acts[i] == init[i]);
            } else {
                assert(acts[l] == acts.last());
            }
        }
        assert forall|i: int|
            0 <= i < acts.len() && (#[trigger] acts[i]).2 == 0 && (if now >= acts[i].1 {
                now - acts[i].1
            } else {
                0
            }) > timeout implies cur.contains(acts[i].0) by {
            if i < l {
                assert(acts[i] == init[i]);
                let j = choose|j: int| 0 <= j < prev.len() && prev[j] == init[i].0;
                assert(cur[j] == prev[j]);
            } else {
                assert(cur[cur.len() - 1] == acts[i].0);
            }
        }
        if forall|a: int, b: int| 0 <= a < b < acts.len() ==> #[trigger] acts[a].0 != #[trigger] acts[b].0 {
            assert forall|a: int, b: int| 0 <= a < b < init.len() implies #[trigger] init[a].0 != #[trigger] init[b].0 by {
                assert(init[a] == acts[a] && init[b] == acts[b]);
            }
            assert forall|i: int| 0 <= i < acts.len() && (#[trigger] acts[i]).2 > 0 implies !cur.contains(acts[i].0) by {
                if cur.contains(acts[i].0) {
                    let j = choose|j: int| 0 <= j < cur.len() && cur[j] == acts[i].0;
                    let i2 = choose|i2: int|
                        0 <= i2 < acts.len() && (#[trigger] acts[i2]).0 == cur[j] && acts[i2].2 == 0 && (if now
                            >= acts[i2].1 {
                            now - acts[i2].1
                        } else {
                            0
                        }) > timeout;
                    if i2 < i {
                        assert(acts[i2].0 != acts[i].0);
                    } else if i < i2 {
                        assert(acts[i].0 != acts[i2].0);
                    }
                }
            }
        }
    }
}

/// The registry's idle sweep never reports a connection with a request
/// running.
pub proof fn lemma_busy_never_idle(reg: ConnectionRegistry, now: u64, timeout: u64)
    requires
        reg.wf(),
    ensures
        forall|i: int|
            0 <= i < reg.activity().len() && (#[trigger] reg.activity()[i]).2 > 0 ==> !idle_ids(
                reg.activity(),
                now,
                timeout,
            ).contains(reg.activity()[i].0),
{
    let acts = reg.activity();
    assert forall|a: int, b: int| 0 <= a < b < acts.len() implies #[trigger] acts[a].0 != #[trigger] acts[b].0 by {
        assert(acts[a].0 == reg.connections@[a].id);
        assert(acts[b].0 == reg.connections@[b].id);
    }
    lemma_idle_ids_exact(acts, now, timeout);
}

proof fn lemma_filter_out_unique(s: Seq<(u64, PeerAddr)>, i: int, id: u64)
    requires
        0 <= i < s.len(),
        s[i].0 == id,
        forall|a: int, b: int| 0 <= a < b < s.len() ==> #[trigger] s[a].0 != #[trigger] s[b].0,
    ensures
        s.filter(|c: (u64, PeerAddr)| c.0 != id) == s.remove(i),
    decreases s.len(),
{
    let f = |c: (u64, PeerAddr)| c.0 != id;
    if i == s.len() - 1 {
        assert(s.drop_last() =~= s.remove(i));
        assert forall|a: int| 0 <= a < s.drop_last().len() implies f(s.drop_last()[a]) by {
            assert(s[a].0 != s[i].0);
        }
        lemma_filter_all(s.drop_last(), id);
        assert(s.filter(f) == s.drop_last().filter(f)) by {
            reveal_with_fuel(Seq::filter, 1);
        }
    } else {
        let p = s.drop_last();
        assert(forall|a: int, b: int| 0 <= a < b < p.len() ==> #[trigger] p[a].0 != #[trigger] p[b].0) by {
            assert forall|a: int, b: int| 0 <= a < b < p.len() implies #[trigger] p[a].0 != #[trigger] p[b].0 by {
                assert(p[a] == s[a]);
                assert(p[b] == s[b]);
            }
        }
        assert(p[i] == s[i]);
        lemma_filter_out_unique(p, i, id);
        assert(s.last().0 != id) by {
            assert(s[s.len() - 1].0 != s[i].0);
        }
        assert(s.filter(f) == p.filter(f).push(s.last())) by {
            reveal_with_fuel(Seq::filter, 1);
        }
        assert(s.remove(i) =~= p.remove(i).push(s.last()));
    }
}

proof fn lemma_filter_all(s: Seq<(u64, PeerAddr)>, id: u64)
    requires
        forall|a: int| 0 <= a < s.len() ==> (#[trigger] s[a]).0 != id,
    ensures
        s.filter(|c: (u64, PeerAddr)| c.0 != id) == s,
    decreases s.len(),
{
    reveal_with_fuel(Seq::filter, 1);
    if s.len() > 0 {
        let p = s.drop_last();
        assert forall|a: int| 0 <= a < p.len() implies (#[trigger] p[a]).0 != id by {
            assert(p[a] == s[a]);
        }
        lemma_filter_all(p, id);
        assert(s.last() == s[s.len() - 1]);
        assert(p.push(s.last()) =~= s);
    }
}

proof fn lemma_filter_none(s: Seq<(u64, PeerAddr)>, id: u64)
    requires
        forall|a: int| 0 <= a < s.len() ==> (#[trigger] s[a]).0 != id,
    ensures
        s.filter(|c: (u64, PeerAddr)| c.0 != id) == s,
{
    lemma_filter_all(s, id);
}

proof fn lemma_ids_from_filter(s: Seq<(u64, PeerAddr)>, addr: PeerAddr, id: u64)
    requires
        ids_from(s, addr).len() > 0,
        ids_from(s, addr)[0] == id,
        forall|a: int, b: int| 0 <= a < b < s.len() ==> #[trigger] s[a].0 != #[trigger] s[b].0,
    ensures
        ids_from(s.filter(|c: (u64, PeerAddr)| c.0 != id), addr) == ids_from(s, addr).drop_first(),
    decreases s.len(),
{
    let f = |c: (u64, PeerAddr)| c.0 != id;
    reveal_with_fuel(Seq::filter, 1);
    let p = s.drop_last();
    assert(forall|a: int, b: int| 0 <= a < b < p.len() ==> #[trigger] p[a].0 != #[trigger] p[b].0) by {
        assert forall|a: int, b: int| 0 <= a < b < p.len() implies #[trigger] p[a].0 != #[trigger] p[b].0 by {
            assert(p[a] == s[a]);
            assert(p[b] == s[b]);
        }
    }
    if ids_from(p, addr).len() == 0 {
        // The first connection from `addr` is the last one.
        assert(s.last().1 == addr && s.last().0 == id);
        assert forall|a: int| 0 <= a < p.len() implies (#[trigger] p[a]).0 != id by {
            assert(p[a] == s[a]);
            assert(s[a].0 != s[s.len() - 1].0);
        }
        lemma_filter_all(p, id);
        assert(s.filter(f) == p.filter(f));
        assert(ids_from(s, addr) == ids_from(p, addr).push(id));
        assert(ids_from(s, addr).drop_first() =~= ids_from(p, addr));
    } else {
        assert(ids_from(s, addr)[0] == ids_from(p, addr)[0]) by {
            if s.last().1 == addr {
                assert(ids_from(s, addr) == ids_from(p, addr).push(s.last().0));
            }
        }
        lemma_ids_from_filter(p, addr, id);
        lemma_ids_from_contains(p, addr, id);
        let a = choose|a: int| 0 <= a < p.len() && p[a].0 == id;
        assert(s[a] == p[a]);
        assert(s[a].0 != s[s.len() - 1].0);
        assert(s.last().0 != id);
        assert(s.filter(f) == p.filter(f).push(s.last()));
        assert((s.filter(f)).drop_last() =~= p.filter(f));
        if s.last().1 == addr {
            assert(ids_from(s, addr).drop_first() =~= ids_from(p, addr).drop_first().push(s.last().0));
        } else {
            assert(ids_from(s, addr).drop_first() =~= ids_from(p, addr).drop_first());
        }
    }
}

proof fn lemma_ids_from_contains(s: Seq<(u64, PeerAddr)>, addr: PeerAddr, id: u64)
    requires
        ids_from(s, addr).len() > 0,
        ids_from(s, addr)[0] == id,
    ensures
        exists|a: int| 0 <= a < s.len() && s[a].0 == id,
    decreases s.len(),
{
    let p = s.drop_last();
    if ids_from(p, addr).len() == 0 {
        assert(s[s.len() - 1].0 == id);
    } else {
        lemma_ids_from_contains(p, addr, id);
        let a = choose|a: int| 0 <= a < p.len() && p[a].0 == id;
        assert(s[a] == p[a]);
    }
}

} // verus!
