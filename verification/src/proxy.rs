//! Upstream groups: which server of a group takes a request, and the record
//! of recent failures that keeps a failing server aside for a while.
//!
//! Times are nanoseconds on a monotonic clock; timeouts in the configuration
//! are whole seconds.
use vstd::prelude::*;
use crate::config;
use crate::config::{Balancing, UpstreamV as ConfigUpstreamV, strings_view};
use crate::http::{HttpVersion, Request, RequestV, StartLineV};
use crate::strmap::{Entries, StrMap, spec_insert, insert_all};
use crate::text::{chars_of, prefix_chars, byte_prefix_chars, lemma_prefix_chars_fits};
use crate::uri::{Uri, UriV, uri_wf, uri_ordered, uri_host, uri_path, uri_domain, uri_scheme, spec_replace_path_prefix};
use crate::vars::{spec_replace_vars, replace_vars};

verus! {

pub const NANOS_PER_SEC: u128 = 1_000_000_000;

/// Why passing a request on failed.
#[derive(Debug)]
pub enum ProxyError {
    /// Connecting, sending or receiving failed.
    IoError,
    ResponseParseError(crate::http::ParseError),
    VarError(crate::vars::VarError),
    Timeout,
    /// The upstream host is no valid DNS name.
    DomainNameError,
}

/// How a group spreads requests over its servers.
pub enum Balancer {
    /// The next server to try.
    RoundRobin(usize),
    /// Open connections per server.
    LeastConnected(Vec<u32>),
    /// By a hash of the client's address.
    IpHash,
}

/// An upstream group at run time.
pub struct Upstream {
    balancer: Balancer,
    servers: Vec<String>,
    /// For each server, the times of its recent failures, oldest first.
    failures: Vec<Vec<u128>>,
    max_fails: usize,
    connect_timeout: u128,
    fail_timeout: u128,
    header_timeout: u128,
    body_timeout: u128,
    send_timeout: u128,
}

pub enum BalancerV {
    RoundRobin(int),
    LeastConnected(Seq<u32>),
    IpHash,
}

pub struct UpstreamV {
    pub balancer: BalancerV,
    pub servers: Seq<Seq<char>>,
    pub failures: Seq<Seq<u128>>,
    pub max_fails: int,
    pub connect_timeout: u128,
    pub fail_timeout: u128,
    pub header_timeout: u128,
    pub body_timeout: u128,
    pub send_timeout: u128,
}

impl View for Upstream {
    type V = UpstreamV;

    closed spec fn view(&self) -> UpstreamV {
        UpstreamV {
            balancer: match self.balancer {
                Balancer::RoundRobin(n) => BalancerV::RoundRobin(n as int),
                Balancer::LeastConnected(c) => BalancerV::LeastConnected(c@),
                Balancer::IpHash => BalancerV::IpHash,
            },
            servers: strings_view(self.servers@),
            failures: self.failures@.map_values(|f: Vec<u128>| f@),
            max_fails: self.max_fails as int,
            connect_timeout: self.connect_timeout,
            fail_timeout: self.fail_timeout,
            header_timeout: self.header_timeout,
            body_timeout: self.body_timeout,
            send_timeout: self.send_timeout,
        }
    }
}

/// One failure record per server, one connection count per server under
/// least-connected balancing, and the round-robin position on a server.
pub open spec fn upstream_wf(u: UpstreamV) -> bool {
    &&& u.failures.len() == u.servers.len()
    &&& match u.balancer {
        BalancerV::RoundRobin(n) => 0 <= n && (u.servers.len() > 0 ==> n < u.servers.len()),
        BalancerV::LeastConnected(c) => c.len() == u.servers.len(),
        BalancerV::IpHash => true,
    }
}

/// The failures that are still recent at `now`: older ones are dropped from
/// the front while more than `timeout` has passed since them.
pub open spec fn recent(f: Seq<u128>, now: u128, timeout: u128) -> Seq<u128>
    decreases f.len(),
{
    if f.len() > 0 && (if now >= f[0] { now - f[0] } else { 0 }) > timeout {
        recent(f.drop_first(), now, timeout)
    } else {
        f
    }
}

/// Whether a server may take requests at `now`: fewer than `max_fails` recent
/// failures.
pub open spec fn healthy(u: UpstreamV, server: int, now: u128) -> bool {
    recent(u.failures[server], now, u.fail_timeout).len() < u.max_fails
}

/// The group after the failures of `server` were brought up to `now`.
pub open spec fn refreshed(u: UpstreamV, server: int, now: u128) -> UpstreamV {
    UpstreamV {
        failures: u.failures.update(server, recent(u.failures[server], now, u.fail_timeout)),
        ..u
    }
}

/// Round robin: from the next server on, up to `tries` times, the first
/// healthy one; else the last one tried. Gives the server and the group after.
pub open spec fn spec_round_robin(u: UpstreamV, next: int, tries: int, now: u128, last: int) -> (
    int,
    UpstreamV,
)
    decreases tries,
{
    if tries <= 0 || u.servers.len() == 0 {
        (last, u)
    } else {
        let c = next;
        let u1 = UpstreamV {
            balancer: BalancerV::RoundRobin((c + 1) % (u.servers.len() as int)),
            ..refreshed(u, c, now)
        };
        if healthy(u, c, now) {
            (c, u1)
        } else {
            spec_round_robin(u1, (c + 1) % (u.servers.len() as int), tries - 1, now, c)
        }
    }
}

/// Least connected: among the first `n` servers, the healthy one with the
/// fewest connections (the first among equals) and the failing one with the
/// fewest; the failures of each server looked at are brought up to `now`.
pub open spec fn spec_least(u: UpstreamV, counts: Seq<u32>, n: int, now: u128) -> (
    (int, u32, int, u32),
    UpstreamV,
)
    decreases n,
{
    if n <= 0 {
        ((0, u32::MAX, 0, u32::MAX), u)
    } else {
        let ((bs, bc, bf, bfc), u0) = spec_least(u, counts, n - 1, now);
        let i = n - 1;
        let u1 = refreshed(u0, i, now);
        if healthy(u0, i, now) {
            if counts[i] < bc {
                ((i, counts[i], bf, bfc), u1)
            } else {
                ((bs, bc, bf, bfc), u1)
            }
        } else {
            if counts[i] < bfc {
                ((bs, bc, i, counts[i]), u1)
            } else {
                ((bs, bc, bf, bfc), u1)
            }
        }
    }
}

/// The server that takes the next request, and the group after it was chosen.
/// `ip_hash` is the hash of the client's address.
pub open spec fn spec_get_server(u: UpstreamV, ip_hash: u64, now: u128) -> (int, UpstreamV) {
    match u.balancer {
        BalancerV::RoundRobin(next) => spec_round_robin(
            u,
            next,
            u.servers.len() + 1 as int,
            now,
            next,
        ),
        BalancerV::LeastConnected(counts) => {
            let ((bs, bc, bf, _), u1) = spec_least(u, counts, u.servers.len() as int, now);
            let best = if bc == u32::MAX {
                bf
            } else {
                bs
            };
            (
                best,
                UpstreamV {
                    balancer: BalancerV::LeastConnected(
                        counts.update(best, counts[best].wrapping_add(1)),
                    ),
                    ..u1
                },
            )
        },
        BalancerV::IpHash => {
            let s = (ip_hash as usize as int) % (u.servers.len() as int);
            (s, refreshed(u, s, now))
        },
    }
}

/// The group after a connection to `server` is closed.
pub open spec fn spec_close(u: UpstreamV, server: int) -> UpstreamV {
    match u.balancer {
        BalancerV::LeastConnected(c) => UpstreamV {
            balancer: BalancerV::LeastConnected(c.update(server, c[server].wrapping_sub(1))),
            ..u
        },
        _ => u,
    }
}

/// Dropping old failures a second time drops nothing more.
pub proof fn lemma_recent_idempotent(f: Seq<u128>, now: u128, timeout: u128)
    ensures
        recent(recent(f, now, timeout), now, timeout) == recent(f, now, timeout),
    decreases f.len(),
{
    if f.len() > 0 && (if now >= f[0] { now - f[0] } else { 0 }) > timeout {
        lemma_recent_idempotent(f.drop_first(), now, timeout);
    }
}

/// Bringing one server's failures up to date leaves every server exactly as
/// healthy as it was.
pub proof fn lemma_refreshed_healthy(u: UpstreamV, c: int, j: int, now: u128)
    requires
        0 <= c < u.failures.len(),
        0 <= j < u.failures.len(),
    ensures
        healthy(refreshed(u, c, now), j, now) == healthy(u, j, now),
{
    lemma_recent_idempotent(u.failures[c], now, u.fail_timeout);
}

/// How many steps after `next` round robin reaches `j`, among `n` servers.
spec fn steps_to(j: int, next: int, n: int) -> int {
    if j >= next {
        j - next
    } else {
        j - next + n
    }
}

/// Round robin gives a healthy server where one lies within the servers it
/// tries (those from `next` on, wrapping around, `tries` of them).
proof fn lemma_round_robin_healthy(u: UpstreamV, next: int, tries: int, now: u128, last: int, j: int)
    requires
        u.servers.len() > 0,
        u.failures.len() == u.servers.len(),
        0 <= next < u.servers.len(),
        0 <= last < u.servers.len(),
        0 <= j < u.servers.len(),
        healthy(u, j, now),
        steps_to(j, next, u.servers.len() as int) < tries,
    ensures
        healthy(u, spec_round_robin(u, next, tries, now, last).0, now),
        0 <= spec_round_robin(u, next, tries, now, last).0 < u.servers.len(),
    decreases tries,
{
    let n = u.servers.len() as int;
    let c = next;
    let u1 = UpstreamV {
        balancer: BalancerV::RoundRobin((c + 1) % n),
        ..refreshed(u, c, now)
    };
    if !healthy(u, c, now) {
        assert(j != c);
        lemma_refreshed_healthy(u, c, j, now);
        let next1 = (c + 1) % n;
        if c + 1 < n {
            vstd::arithmetic::div_mod::lemma_small_mod((c + 1) as nat, n as nat);
        } else {
            vstd::arithmetic::div_mod::lemma_mod_self_0(n);
        }
        assert(steps_to(j, next1, n) == steps_to(j, next, n) - 1);
        let r = spec_round_robin(u1, next1, tries - 1, now, c);
        lemma_round_robin_healthy(u1, next1, tries - 1, now, c, j);
        lemma_refreshed_healthy(u, c, r.0, now);
    }
}

/// Least connected looks at the first `n` servers: where one of them is
/// healthy with fewer than `u32::MAX` connections, the best healthy one it
/// keeps is healthy and has such a count; the failures of the servers from
/// `n` on are as they were.
proof fn lemma_least_healthy(u: UpstreamV, counts: Seq<u32>, n: int, now: u128)
    requires
        0 <= n <= u.servers.len(),
        u.failures.len() == u.servers.len(),
        counts.len() == u.servers.len(),
    ensures
        ({
            let ((bs, bc, bf, bfc), u1) = spec_least(u, counts, n, now);
            &&& u1.failures.len() == u.failures.len()
            &&& u1.fail_timeout == u.fail_timeout
            &&& u1.max_fails == u.max_fails
            &&& u1.servers == u.servers
            &&& u1.balancer == u.balancer
            &&& forall|k: int| n <= k < u.failures.len() ==> u1.failures[k] == u.failures[k]
            &&& forall|k: int| 0 <= k < u.failures.len() ==> healthy(u1, k, now) == healthy(u, k, now)
            &&& 0 <= bs < u.servers.len() || n == 0
            &&& 0 <= bf < u.servers.len() || n == 0
            &&& bc < u32::MAX ==> healthy(u, bs, now) && bc == counts[bs]
            &&& (exists|j: int| 0 <= j < n && healthy(u, j, now) && counts[j] < u32::MAX) ==> bc
                < u32::MAX
            &&& forall|k: int| 0 <= k < n && healthy(u, k, now) ==> bc <= counts[k]
        }),
    decreases n,
{
    if n > 0 {
        lemma_least_healthy(u, counts, n - 1, now);
        let ((bs, bc, bf, bfc), u0) = spec_least(u, counts, n - 1, now);
        let i = n - 1;
        assert forall|k: int| 0 <= k < u.failures.len() implies healthy(refreshed(u0, i, now), k, now)
            == healthy(u, k, now) by {
            lemma_refreshed_healthy(u0, i, k, now);
        }
        if exists|j: int| 0 <= j < n && healthy(u, j, now) && counts[j] < u32::MAX {
            let j = choose|j: int| 0 <= j < n && healthy(u, j, now) && counts[j] < u32::MAX;
            if j < n - 1 {
                assert(exists|j2: int| 0 <= j2 < n - 1 && healthy(u, j2, now) && counts[j2] < u32::MAX);
            }
        }
    }
}

/// With every count below `u32::MAX`, least connected over the first `n`
/// servers keeps, among the healthy ones and among the failing ones, the
/// first with the fewest connections.
proof fn lemma_least_lowest(u: UpstreamV, counts: Seq<u32>, n: int, now: u128)
    requires
        0 <= n <= u.servers.len(),
        u.failures.len() == u.servers.len(),
        counts.len() == u.servers.len(),
        forall|k: int| 0 <= k < counts.len() ==> counts[k] < u32::MAX,
    ensures
        ({
            let ((bs, bc, bf, bfc), u1) = spec_least(u, counts, n, now);
            &&& (exists|j: int| 0 <= j < n && healthy(u, j, now)) <==> bc < u32::MAX
            &&& bc < u32::MAX ==> {
                &&& 0 <= bs < n && healthy(u, bs, now) && bc == counts[bs]
                &&& forall|k: int| 0 <= k < n && healthy(u, k, now) ==> counts[bs] <= counts[k]
                &&& forall|k: int| 0 <= k < bs && healthy(u, k, now) ==> counts[bs] < counts[k]
            }
            &&& (exists|j: int| 0 <= j < n && !healthy(u, j, now)) <==> bfc < u32::MAX
            &&& bfc < u32::MAX ==> {
                &&& 0 <= bf < n && !healthy(u, bf, now) && bfc == counts[bf]
                &&& forall|k: int| 0 <= k < n && !healthy(u, k, now) ==> counts[bf] <= counts[k]
                &&& forall|k: int| 0 <= k < bf && !healthy(u, k, now) ==> counts[bf] < counts[k]
            }
        }),
    decreases n,
{
    if n > 0 {
        lemma_least_lowest(u, counts, n - 1, now);
        lemma_least_healthy(u, counts, n - 1, now);
        let ((bs, bc, bf, bfc), u0) = spec_least(u, counts, n - 1, now);
        let i = n - 1;
        assert(healthy(u0, i, now) == healthy(u, i, now));
        if exists|j: int| 0 <= j < n - 1 && healthy(u, j, now) {
            let j = choose|j: int| 0 <= j < n - 1 && healthy(u, j, now);
            assert(exists|j2: int| 0 <= j2 < n && healthy(u, j2, now));
        }
        if exists|j: int| 0 <= j < n - 1 && !healthy(u, j, now) {
            let j = choose|j: int| 0 <= j < n - 1 && !healthy(u, j, now);
            assert(exists|j2: int| 0 <= j2 < n && !healthy(u, j2, now));
        }
        if exists|j: int| 0 <= j < n && healthy(u, j, now) {
            let j = choose|j: int| 0 <= j < n && healthy(u, j, now);
            if j < n - 1 {
                assert(exists|j2: int| 0 <= j2 < n - 1 && healthy(u, j2, now));
            }
        }
        if exists|j: int| 0 <= j < n && !healthy(u, j, now) {
            let j = choose|j: int| 0 <= j < n && !healthy(u, j, now);
            if j < n - 1 {
                assert(exists|j2: int| 0 <= j2 < n - 1 && !healthy(u, j2, now));
            }
        }
    }
}

/// With every count below `u32::MAX`, least connected hands out the first
/// healthy server with the fewest open connections, or where none is healthy
/// the first server with the fewest; its count rises by one and every other
/// count stays as it was.
pub proof fn law_least_connected_choice(u: UpstreamV, ip_hash: u64, now: u128)
    requires
        upstream_wf(u),
        u.servers.len() > 0,
        u.balancer is LeastConnected,
        forall|k: int| 0 <= k < u.servers.len() ==> u.balancer->LeastConnected_0[k] < u32::MAX,
    ensures
        ({
            let n = u.servers.len() as int;
            let counts = u.balancer->LeastConnected_0;
            let (s, v) = spec_get_server(u, ip_hash, now);
            &&& 0 <= s < n
            &&& (exists|j: int| 0 <= j < n && healthy(u, j, now)) ==> {
                &&& healthy(u, s, now)
                &&& forall|k: int| 0 <= k < n && healthy(u, k, now) ==> counts[s] <= counts[k]
                &&& forall|k: int| 0 <= k < s && healthy(u, k, now) ==> counts[s] < counts[k]
            }
            &&& (forall|j: int| 0 <= j < n ==> !healthy(u, j, now)) ==> {
                &&& forall|k: int| 0 <= k < n ==> counts[s] <= counts[k]
                &&& forall|k: int| 0 <= k < s ==> counts[s] < counts[k]
            }
            &&& v.balancer == BalancerV::LeastConnected(counts.update(s, (counts[s] + 1) as u32))
        }),
{
    let n = u.servers.len() as int;
    let counts = u.balancer->LeastConnected_0;
    lemma_least_lowest(u, counts, n, now);
    let ((bs, bc, bf, bfc), u1) = spec_least(u, counts, n, now);
    if !(exists|j: int| 0 <= j < n && healthy(u, j, now)) {
        assert(!healthy(u, 0, now));
        assert(exists|j: int| 0 <= j < n && !healthy(u, j, now));
    }
    let best = if bc == u32::MAX { bf } else { bs };
    let x = counts[best];
    assert(x < u32::MAX ==> x.wrapping_add(1) == (x + 1) as u32) by (bit_vector);
    if forall|j: int| 0 <= j < n ==> !healthy(u, j, now) {
        assert forall|k: int| 0 <= k < n implies counts[best] <= counts[k] by {
            assert(!healthy(u, k, now));
        }
        assert forall|k: int| 0 <= k < best implies counts[best] < counts[k] by {
            assert(!healthy(u, k, now));
        }
    }
}

/// While some server of a round-robin or least-connected group is healthy,
/// the group hands out a healthy server (under least connected, where that
/// server has fewer than `u32::MAX` open connections).
pub proof fn law_healthy_server_preferred(u: UpstreamV, ip_hash: u64, now: u128, j: int)
    requires
        upstream_wf(u),
        0 <= j < u.servers.len(),
        healthy(u, j, now),
        !(u.balancer is IpHash),
        u.balancer matches BalancerV::LeastConnected(c) ==> c[j] < u32::MAX,
    ensures
        healthy(u, spec_get_server(u, ip_hash, now).0, now),
{
    let n = u.servers.len() as int;
    match u.balancer {
        BalancerV::RoundRobin(next) => {
            lemma_round_robin_healthy(u, next, n + 1, now, next, j);
        },
        BalancerV::LeastConnected(counts) => {
            lemma_least_healthy(u, counts, n, now);
        },
        BalancerV::IpHash => {},
    }
}

/// Least connected hands out, among the healthy servers, one with the fewest
/// open connections (where some healthy server has fewer than `u32::MAX`).
pub proof fn law_least_connected_is_least(u: UpstreamV, ip_hash: u64, now: u128, j: int)
    requires
        upstream_wf(u),
        0 <= j < u.servers.len(),
        healthy(u, j, now),
        u.balancer is LeastConnected,
        u.balancer->LeastConnected_0[j] < u32::MAX,
    ensures
        ({
            let counts = u.balancer->LeastConnected_0;
            let s = spec_get_server(u, ip_hash, now).0;
            &&& healthy(u, s, now)
            &&& forall|k: int| 0 <= k < u.servers.len() && healthy(u, k, now) ==> counts[s] <= counts[k]
        }),
{
    let counts = u.balancer->LeastConnected_0;
    lemma_least_healthy(u, counts, u.servers.len() as int, now);
}

/// Round robin with every server healthy hands out the next server in turn
/// and moves on to the one after it.
pub proof fn law_round_robin_takes_turns(u: UpstreamV, ip_hash: u64, now: u128)
    requires
        upstream_wf(u),
        u.servers.len() > 0,
        u.balancer is RoundRobin,
        forall|k: int| 0 <= k < u.servers.len() ==> healthy(u, k, now),
    ensures
        ({
            let next = u.balancer->RoundRobin_0;
            let (s, u1) = spec_get_server(u, ip_hash, now);
            &&& s == next
            &&& u1.balancer == BalancerV::RoundRobin((next + 1) % (u.servers.len() as int))
        }),
{
}

/// The servers that the first `k` of successive calls hand out, in order,
/// the `m`-th call (from 0) coming from a client whose address hashes to
/// `ips[m]` at time `times[m]`; and the group after them.
pub open spec fn successive_servers(u: UpstreamV, ips: Seq<u64>, times: Seq<u128>, k: nat) -> (
    Seq<int>,
    UpstreamV,
)
    decreases k,
{
    if k == 0 {
        (Seq::empty(), u)
    } else {
        let (ss, u1) = successive_servers(u, ips, times, (k - 1) as nat);
        let (s, u2) = spec_get_server(u1, ips[k - 1], times[k - 1]);
        (ss.push(s), u2)
    }
}

/// Round robin from the first server, where at each call every server is
/// healthy: the `m`-th of successive calls (from 0) hands out server `m`
/// modulo the number of servers, whatever client makes it and whenever;
/// afterwards the group goes on from `k` modulo that number.
pub proof fn law_round_robin_goes_round(u: UpstreamV, ips: Seq<u64>, times: Seq<u128>, k: nat)
    requires
        upstream_wf(u),
        u.servers.len() > 0,
        u.balancer == BalancerV::RoundRobin(0),
        k <= ips.len(),
        k <= times.len(),
        forall|m: int, j: int|
            0 <= m < k && 0 <= j < u.servers.len() ==> #[trigger] healthy(
                successive_servers(u, ips, times, m as nat).1,
                j,
                times[m],
            ),
    ensures
        ({
            let n = u.servers.len() as int;
            let (ss, v) = successive_servers(u, ips, times, k);
            &&& ss.len() == k
            &&& forall|m: int| 0 <= m < k ==> ss[m] == m % n
            &&& v.balancer == BalancerV::RoundRobin((k as int) % n)
            &&& upstream_wf(v)
            &&& v.servers == u.servers
        }),
    decreases k,
{
    let n = u.servers.len() as int;
    if k == 0 {
        assert(0int % n == 0) by {
            vstd::arithmetic::div_mod::lemma_small_mod(0, n as nat);
        }
    } else {
        let k1 = (k - 1) as nat;
        assert forall|m: int, j: int|
            0 <= m < k1 && 0 <= j < u.servers.len() implies #[trigger] healthy(
                successive_servers(u, ips, times, m as nat).1,
                j,
                times[m],
            ) by {}
        law_round_robin_goes_round(u, ips, times, k1);
        let (ss, u1) = successive_servers(u, ips, times, k1);
        assert forall|j: int| 0 <= j < u1.servers.len() implies #[trigger] healthy(u1, j, times[k - 1]) by {
            assert(healthy(successive_servers(u, ips, times, k1).1, j, times[k1 as int]));
        }
        let c = (k - 1) % n;
        vstd::arithmetic::div_mod::lemma_mod_bound(k - 1, n);
        law_round_robin_takes_turns(u1, ips[k - 1], times[k - 1]);
        vstd::arithmetic::div_mod::lemma_add_mod_noop(k - 1, 1, n);
        vstd::arithmetic::div_mod::lemma_add_mod_noop_right(c, 1, n);
        vstd::arithmetic::div_mod::lemma_mod_bound(k as int, n);
    }
}

/// Dropping the failures that are old at `t1`, then those old at a later
/// `t2`, drops those old at `t2`.
proof fn lemma_recent_later(f: Seq<u128>, t1: u128, t2: u128, timeout: u128)
    requires
        t1 <= t2,
    ensures
        recent(recent(f, t1, timeout), t2, timeout) == recent(f, t2, timeout),
    decreases f.len(),
{
    if f.len() > 0 && (if t1 >= f[0] { t1 - f[0] } else { 0 }) > timeout {
        lemma_recent_later(f.drop_first(), t1, t2, timeout);
    }
}

/// Round robin calls made at times that do not go back leave every server's
/// failures, as seen from the time of the last call on, as they were.
proof fn lemma_successive_failures(u: UpstreamV, ips: Seq<u64>, times: Seq<u128>, k: nat, j: int, t: u128)
    requires
        upstream_wf(u),
        u.servers.len() > 0,
        u.balancer is RoundRobin,
        k <= ips.len(),
        k <= times.len(),
        forall|m: int| 0 <= m < times.len() - 1 ==> times[m] <= #[trigger] times[m + 1],
        0 <= j < u.servers.len(),
        k > 0 ==> times[k - 1] <= t,
    ensures
        ({
            let v = successive_servers(u, ips, times, k).1;
            &&& upstream_wf(v)
            &&& v.balancer is RoundRobin
            &&& v.servers == u.servers
            &&& v.max_fails == u.max_fails
            &&& v.fail_timeout == u.fail_timeout
            &&& recent(v.failures[j], t, u.fail_timeout) == recent(u.failures[j], t, u.fail_timeout)
        }),
    decreases k,
{
    if k > 0 {
        let k1 = (k - 1) as nat;
        if k1 > 0 {
            assert(times[k1 - 1] <= times[k1 - 1 + 1]);
        }
        lemma_successive_failures(u, ips, times, k1, j, t);
        let u1 = successive_servers(u, ips, times, k1).1;
        lemma_round_robin_steps(u1, u1.balancer->RoundRobin_0, u1.servers.len() + 1 as int, times[k1 as int], u1.balancer->RoundRobin_0, j, t);
    }
}

/// Each step of round robin at `now` refreshes failures at `now` and keeps
/// the group's shape: a server's failures seen from `t >= now` stay as they
/// were.
proof fn lemma_round_robin_steps(u: UpstreamV, next: int, tries: int, now: u128, last: int, j: int, t: u128)
    requires
        upstream_wf(u),
        u.servers.len() > 0,
        u.balancer is RoundRobin,
        0 <= next < u.servers.len(),
        0 <= j < u.servers.len(),
        now <= t,
    ensures
        ({
            let v = spec_round_robin(u, next, tries, now, last).1;
            &&& upstream_wf(v)
            &&& v.balancer is RoundRobin
            &&& v.servers == u.servers
            &&& v.max_fails == u.max_fails
            &&& v.fail_timeout == u.fail_timeout
            &&& recent(v.failures[j], t, u.fail_timeout) == recent(u.failures[j], t, u.fail_timeout)
        }),
    decreases tries,
{
    if tries > 0 {
        let n = u.servers.len() as int;
        let c = next;
        let u1 = UpstreamV { balancer: BalancerV::RoundRobin((c + 1) % n), ..refreshed(u, c, now) };
        vstd::arithmetic::div_mod::lemma_mod_bound(c + 1, n);
        if c == j {
            lemma_recent_later(u.failures[j], now, t, u.fail_timeout);
        }
        if !healthy(u, c, now) {
            lemma_round_robin_steps(u1, (c + 1) % n, tries - 1, now, c, j, t);
        }
    }
}

/// Round robin from the first server, with calls at times that do not go
/// back, where every server is healthy in the group at the time of each
/// call: the `m`-th call (from 0) hands out server `m` modulo the number of
/// servers, whatever client makes it.
pub proof fn law_round_robin_goes_round_in_time(u: UpstreamV, ips: Seq<u64>, times: Seq<u128>, k: nat)
    requires
        upstream_wf(u),
        u.servers.len() > 0,
        u.balancer == BalancerV::RoundRobin(0),
        k <= ips.len(),
        k <= times.len(),
        forall|m: int| 0 <= m < times.len() - 1 ==> times[m] <= #[trigger] times[m + 1],
        forall|m: int, j: int| 0 <= m < k && 0 <= j < u.servers.len() ==> #[trigger] healthy(u, j, times[m]),
    ensures
        ({
            let n = u.servers.len() as int;
            let ss = successive_servers(u, ips, times, k).0;
            &&& ss.len() == k
            &&& forall|m: int| 0 <= m < k ==> ss[m] == m % n
        }),
{
    assert forall|m: int, j: int|
        0 <= m < k && 0 <= j < u.servers.len() implies #[trigger] healthy(
            successive_servers(u, ips, times, m as nat).1,
            j,
            times[m],
        ) by {
        if m > 0 {
            lemma_times_ordered(times, m - 1, m);
        }
        lemma_successive_failures(u, ips, times, m as nat, j, times[m]);
        assert(healthy(u, j, times[m]));
    }
    law_round_robin_goes_round(u, ips, times, k);
}

/// Times that do not go back from one to the next do not go back overall.
proof fn lemma_times_ordered(times: Seq<u128>, a: int, b: int)
    requires
        0 <= a <= b < times.len(),
        forall|m: int| 0 <= m < times.len() - 1 ==> times[m] <= #[trigger] times[m + 1],
    ensures
        times[a] <= times[b],
    decreases b - a,
{
    if a < b {
        lemma_times_ordered(times, a, b - 1);
        assert(times[b - 1] <= times[b - 1 + 1]);
    }
}

/// Closing the connection that a least-connected group handed out gives the
/// group back the connection counts it had.
pub proof fn law_close_undoes_get(u: UpstreamV, ip_hash: u64, now: u128)
    requires
        upstream_wf(u),
        u.servers.len() > 0,
        u.balancer is LeastConnected,
    ensures
        spec_close(spec_get_server(u, ip_hash, now).1, spec_get_server(u, ip_hash, now).0).balancer
            == u.balancer,
{
    let n = u.servers.len() as int;
    let counts = u.balancer->LeastConnected_0;
    lemma_least_healthy(u, counts, n, now);
    let ((bs, bc, bf, _), u1) = spec_least(u, counts, n, now);
    let best = if bc == u32::MAX {
        bf
    } else {
        bs
    };
    let x = counts[best];
    assert(x.wrapping_add(1).wrapping_sub(1) == x) by (bit_vector);
    assert(counts.update(best, x.wrapping_add(1)).update(best, x.wrapping_add(1).wrapping_sub(1))
        =~= counts);
}

fn recent_failures(f: &mut Vec<u128>, now: u128, timeout: u128)
    ensures
        final(f)@ == recent(old(f)@, now, timeout),
{
    loop
        invariant
            recent(old(f)@, now, timeout) == recent(f@, now, timeout),
        decreases f@.len(),
    {
        if f.len() == 0 {
            return;
        }
        let elapsed = if now >= f[0] {
            now - f[0]
        } else {
            0
        };
        if elapsed <= timeout {
            return;
        }
        let ghost before = f@;
        f.remove(0);
        assert(f@ =~= before.drop_first());
    }
}

impl Upstream {
    /// Whether the group's records fit its servers.
    pub closed spec fn wf(&self) -> bool {
        &&& upstream_wf(self@)
        &&& self.failures@.len() == self.servers@.len()
        &&& match self.balancer {
            Balancer::LeastConnected(c) => c@.len() == self.servers@.len(),
            _ => true,
        }
    }

    /// A well-formed group is well-formed as the balancing laws take it.
    pub proof fn lemma_view_wf(&self)
        requires
            self.wf(),
        ensures
            upstream_wf(self@),
    {
    }

    /// Number of servers.
    pub fn len(&self) -> (n: usize)
        ensures
            n == self@.servers.len(),
    {
        self.servers.len()
    }

    /// The address of server `i`, as configured.
    pub fn server(&self, i: usize) -> (s: &String)
        requires
            i < self@.servers.len(),
        ensures
            s@ == self@.servers[i as int],
    {
        &self.servers[i]
    }

    /// Timeouts, in seconds as configured: connect, header, body, send.
    pub fn timeouts(&self) -> (t: (u128, u128, u128, u128))
        ensures
            t == (self@.connect_timeout, self@.header_timeout, self@.body_timeout, self@.send_timeout),
    {
        (self.connect_timeout, self.header_timeout, self.body_timeout, self.send_timeout)
    }

    /// Records a failure of `server` at `now`.
    pub fn add_failure(&mut self, server: usize, now: u128)
        requires
            old(self).wf(),
            server < old(self)@.servers.len(),
        ensures
            final(self).wf(),
            final(self)@ == (UpstreamV {
                failures: old(self)@.failures.update(server as int, old(self)@.failures[server as int].push(now)),
                ..old(self)@
            }),
    {
        let mut f: Vec<u128> = Vec::new();
        self.failures.set_and_swap(server, &mut f);
        f.push(now);
        self.failures.set_and_swap(server, &mut f);
        assert(self@.failures =~= old(self)@.failures.update(server as int, old(self)@.failures[server as int].push(now)));
        assert(self@.servers == old(self)@.servers);
    }

    /// Drops the failures of `server` that are no longer recent at `now`;
    /// true when fewer than `max_fails` remain.
    pub fn update_failures(&mut self, server: usize, now: u128) -> (r: bool)
        requires
            old(self).wf(),
            server < old(self)@.servers.len(),
        ensures
            final(self).wf(),
            final(self)@ == refreshed(old(self)@, server as int, now),
            r == healthy(old(self)@, server as int, now),
    {
        let mut f: Vec<u128> = Vec::new();
        self.failures.set_and_swap(server, &mut f);
        recent_failures(&mut f, now, self.fail_timeout);
        let r = f.len() < self.max_fails;
        self.failures.set_and_swap(server, &mut f);
        assert(self@.failures =~= refreshed(old(self)@, server as int, now).failures);
        r
    }

    /// Chooses the server for the next request (see `spec_get_server`).
    /// `ip_hash` is the hash of the client's address, `now` the time.
    /// Requires a group with servers: round robin divides by their number.
    pub fn get_server(&mut self, ip_hash: u64, now: u128) -> (r: usize)
        requires
            old(self).wf(),
            old(self)@.servers.len() > 0,
        ensures
            final(self).wf(),
            (r as int, final(self)@) == spec_get_server(old(self)@, ip_hash, now),
            r < old(self)@.servers.len(),
            final(self)@.servers == old(self)@.servers,
    {
        let n = self.servers.len();
        match self.balancer {
            Balancer::RoundRobin(next) => {
                let mut current = next;
                let mut last = next;
                let mut tries: u128 = n as u128 + 1;
                loop
                    invariant
                        self.wf(),
                        self@.servers == old(self)@.servers,
                        n == self@.servers.len(),
                        n > 0,
                        current < n,
                        last < n,
                        self@.balancer == BalancerV::RoundRobin(current as int),
                        tries > 0,
                        spec_get_server(old(self)@, ip_hash, now) == spec_round_robin(
                            self@,
                            current as int,
                            tries as int,
                            now,
                            last as int,
                        ),
                    decreases tries,
                {
                    let c = current;
                    self.balancer = Balancer::RoundRobin((c + 1) % n);
                    let ok = self.update_failures(c, now);
                    if ok {
                        return c;
                    }
                    current = (c + 1) % n;
                    last = c;
                    tries = tries - 1;
                    if tries == 0 {
                        assert(spec_round_robin(self@, current as int, 0, now, last as int) == (
                            last as int,
                            self@,
                        ));
                        return last;
                    }
                }
            },
            Balancer::LeastConnected(_) => {
                let ghost counts0 = match self@.balancer {
                    BalancerV::LeastConnected(c) => c,
                    _ => Seq::empty(),
                };
                let mut best_server: usize = 0;
                let mut best_count: u32 = u32::MAX;
                let mut best_failed: usize = 0;
                let mut best_failed_count: u32 = u32::MAX;
                let mut i: usize = 0;
                while i < n
                    invariant
                        self.wf(),
                        self@.servers == old(self)@.servers,
                        n == self@.servers.len(),
                        i <= n,
                        self@.balancer == BalancerV::LeastConnected(counts0),
                        old(self)@.balancer == BalancerV::LeastConnected(counts0),
                        best_server < n || best_server == 0,
                        best_failed < n || best_failed == 0,
                        spec_least(old(self)@, counts0, i as int, now) == (
                            (best_server as int, best_count, best_failed as int, best_failed_count),
                            self@,
                        ),
                    decreases n - i,
                {
                    let cnt = match &self.balancer {
                        Balancer::LeastConnected(c) => c[i],
                        _ => 0,
                    };
                    let ok = self.update_failures(i, now);
                    if ok {
                        if cnt < best_count {
                            best_server = i;
                            best_count = cnt;
                        }
                    } else {
                        if cnt < best_failed_count {
                            best_failed = i;
                            best_failed_count = cnt;
                        }
                    }
                    i = i + 1;
                }
                if best_count == u32::MAX {
                    best_server = best_failed;
                }
                match &mut self.balancer {
                    Balancer::LeastConnected(c) => {
                        let v = c[best_server];
                        c.set(best_server, v.wrapping_add(1));
                    },
                    _ => {},
                }
                best_server
            },
            Balancer::IpHash => {
                let s = (#[verifier::truncate] (ip_hash as usize)) % n;
                self.update_failures(s, now);
                s
            },
        }
    }

    /// Undoes the count that choosing `server` added under least-connected
    /// balancing.
    pub fn close_connection(&mut self, server: usize)
        requires
            old(self).wf(),
            server < old(self)@.servers.len(),
        ensures
            final(self).wf(),
            final(self)@ == spec_close(old(self)@, server as int),
    {
        match &mut self.balancer {
            Balancer::LeastConnected(counts) => {
                let c = counts[server];
                counts.set(server, c.wrapping_sub(1));
            },
            _ => {},
        }
    }
}

} // verus!

verus! {

pub open spec fn secs(o: Option<u64>, default: u128) -> u128 {
    match o {
        Some(s) => (s as u128 * NANOS_PER_SEC) as u128,
        None => (default * NANOS_PER_SEC) as u128,
    }
}

/// The run-time group a configured group becomes: round robin unless set,
/// at most one failure within 10 seconds, 60-second timeouts.
pub open spec fn spec_make_upstream(c: ConfigUpstreamV) -> UpstreamV {
    UpstreamV {
        balancer: match c.balancing {
            None => BalancerV::RoundRobin(0),
            Some(Balancing::RoundRobin) => BalancerV::RoundRobin(0),
            Some(Balancing::LeastConnected) => BalancerV::LeastConnected(
                Seq::new(c.servers.len(), |i: int| 0u32),
            ),
            Some(Balancing::IpHash) => BalancerV::IpHash,
        },
        servers: c.servers,
        failures: Seq::new(c.servers.len(), |i: int| Seq::<u128>::empty()),
        max_fails: match c.max_fails {
            Some(m) => m as int,
            None => 1,
        },
        connect_timeout: secs(c.connect_timeout, 60),
        fail_timeout: secs(c.fail_timeout, 10),
        header_timeout: secs(c.header_timeout, 60),
        body_timeout: secs(c.body_timeout, 60),
        send_timeout: secs(c.send_timeout, 60),
    }
}

fn seconds_or(o: Option<u64>, default: u128) -> (r: u128)
    requires
        default <= 60,
    ensures
        r == secs(o, default),
{
    match o {
        Some(s) => {
            assert(s as u128 * NANOS_PER_SEC <= 0xffff_ffff_ffff_ffff * 1_000_000_000) by (nonlinear_arith)
                requires s <= 0xffff_ffff_ffff_ffff;
            (s as u128) * NANOS_PER_SEC
        },
        None => default * NANOS_PER_SEC,
    }
}

fn make_upstream(c: config::Upstream) -> (u: Upstream)
    ensures
        u@ == spec_make_upstream(c@),
        u.wf(),
{
    let n = c.servers.len();
    let balancer = match c.balancing {
        None => Balancer::RoundRobin(0),
        Some(Balancing::RoundRobin) => Balancer::RoundRobin(0),
        Some(Balancing::LeastConnected) => {
            let mut counts: Vec<u32> = Vec::new();
            let mut i: usize = 0;
            while i < n
                invariant
                    i <= n,
                    counts@ =~= Seq::new(i as nat, |j: int| 0u32),
                decreases n - i,
            {
                counts.push(0);
                i = i + 1;
            }
            Balancer::LeastConnected(counts)
        },
        Some(Balancing::IpHash) => Balancer::IpHash,
    };
    let mut failures: Vec<Vec<u128>> = Vec::new();
    let mut i: usize = 0;
    while i < n
        invariant
            i <= n,
            failures@.len() == i,
            failures@.map_values(|f: Vec<u128>| f@) =~= Seq::new(i as nat, |j: int| Seq::<u128>::empty()),
        decreases n - i,
    {
        let e: Vec<u128> = Vec::new();
        assert(e@ =~= Seq::<u128>::empty());
        let ghost before = failures@;
        failures.push(e);
        assert(failures@ == before.push(e));
        assert(failures@.map_values(|f: Vec<u128>| f@) =~= before.map_values(|f: Vec<u128>| f@).push(e@));
        i = i + 1;
        assert(failures@.map_values(|f: Vec<u128>| f@) =~= Seq::new(i as nat, |j: int| Seq::<u128>::empty()));
    }
    let max_fails = match c.max_fails {
        Some(m) => m,
        None => 1,
    };
    let u = Upstream {
        balancer,
        failures,
        max_fails,
        connect_timeout: seconds_or(c.connect_timeout, 60),
        fail_timeout: seconds_or(c.fail_timeout, 10),
        header_timeout: seconds_or(c.header_timeout, 60),
        body_timeout: seconds_or(c.body_timeout, 60),
        send_timeout: seconds_or(c.send_timeout, 60),
        servers: c.servers,
    };
    assert(u@.failures =~= spec_make_upstream(c@).failures);
    u
}

/// The upstream groups by name.
pub struct UpstreamPool {
    groups: Vec<(String, Upstream)>,
}

impl View for UpstreamPool {
    type V = Seq<(Seq<char>, UpstreamV)>;

    closed spec fn view(&self) -> Seq<(Seq<char>, UpstreamV)> {
        self.groups@.map_values(|g: (String, Upstream)| (g.0@, g.1@))
    }
}

/// Index of the first group named `name`.
pub open spec fn group_index(s: Seq<(Seq<char>, UpstreamV)>, name: Seq<char>) -> Option<int> {
    if exists|i: int| 0 <= i < s.len() && s[i].0 == name {
        let i = choose|i: int| 0 <= i < s.len() && s[i].0 == name && forall|j: int| 0 <= j < i ==> s[j].0 != name;
        Some(i)
    } else {
        None
    }
}

/// The group found for a name lies among the groups and bears the name.
proof fn lemma_group_index_found(s: Seq<(Seq<char>, UpstreamV)>, name: Seq<char>)
    ensures
        group_index(s, name) matches Some(i) ==> 0 <= i < s.len() && s[i].0 == name,
{
    if exists|i: int| 0 <= i < s.len() && s[i].0 == name {
        let w = choose|i: int| 0 <= i < s.len() && s[i].0 == name;
        lemma_first_named(s, name, w);
    }
}

/// Where some group bears `name`, a first one does.
proof fn lemma_first_named(s: Seq<(Seq<char>, UpstreamV)>, name: Seq<char>, w: int)
    requires
        0 <= w < s.len(),
        s[w].0 == name,
    ensures
        exists|i: int| 0 <= i < s.len() && s[i].0 == name && forall|j: int| 0 <= j < i ==> s[j].0 != name,
    decreases w,
{
    if exists|j: int| 0 <= j < w && s[j].0 == name {
        let j = choose|j: int| 0 <= j < w && s[j].0 == name;
        lemma_first_named(s, name, j);
    } else {
        assert(forall|j: int| 0 <= j < w ==> s[j].0 != name);
    }
}

/// The first group with the name is the one `group_index` gives.
pub proof fn lemma_group_index_at(s: Seq<(Seq<char>, UpstreamV)>, name: Seq<char>, i: int)
    requires
        0 <= i < s.len(),
        s[i].0 == name,
        forall|j: int| 0 <= j < i ==> s[j].0 != name,
    ensures
        group_index(s, name) == Some(i),
{
    let k = choose|k: int| 0 <= k < s.len() && s[k].0 == name && forall|j: int| 0 <= j < k ==> s[j].0 != name;
    if k < i {
        assert(s[k].0 != name);
    } else if k > i {
        assert(s[i].0 != name);
    }
}

impl UpstreamPool {
    /// Every group's records fit its servers.
    pub closed spec fn wf(&self) -> bool {
        forall|i: int| 0 <= i < self.groups@.len() ==> #[trigger] self.groups@[i].1.wf()
    }

    /// A well-formed pool's groups are well-formed as the balancing laws
    /// take them.
    pub proof fn lemma_groups_wf(&self)
        requires
            self.wf(),
        ensures
            forall|i: int| 0 <= i < self@.len() ==> upstream_wf(#[trigger] self@[i].1),
    {
        assert forall|i: int| 0 <= i < self@.len() implies upstream_wf(#[trigger] self@[i].1) by {
            assert(self.groups@[i].1.wf());
        }
    }

    /// Number of groups.
    pub fn len(&self) -> (n: usize)
        ensures
            n == self@.len(),
    {
        self.groups.len()
    }

    /// The index of the group named `name`: the first such.
    pub fn find(&self, name: &str) -> (r: Option<usize>)
        ensures
            match r {
                Some(i) => i < self@.len() && self@[i as int].0 == name@ && forall|j: int|
                    0 <= j < i ==> self@[j].0 != name@,
                None => forall|j: int| 0 <= j < self@.len() ==> self@[j].0 != name@,
            },
    {
        let mut i: usize = 0;
        while i < self.groups.len()
            invariant
                i <= self@.len(),
                self.groups@.len() == self@.len(),
                forall|j: int| 0 <= j < i ==> self@[j].0 != name@,
            decreases self@.len() - i,
        {
            assert(self@[i as int].0 == self.groups@[i as int].0@);
            if crate::text::str_eq(self.groups[i].0.as_str(), name) {
                return Some(i);
            }
            i = i + 1;
        }
        None
    }

    /// Group `i`.
    pub fn group(&self, i: usize) -> (g: &Upstream)
        requires
            i < self@.len(),
        ensures
            g@ == self@[i as int].1,
    {
        &self.groups[i].1
    }

    /// Chooses a server of group `g` (see `Upstream::get_server`).
    pub fn get_server(&mut self, g: usize, ip_hash: u64, now: u128) -> (r: usize)
        requires
            old(self).wf(),
            g < old(self)@.len(),
            old(self)@[g as int].1.servers.len() > 0,
        ensures
            final(self).wf(),
            final(self)@.len() == old(self)@.len(),
            (r as int, final(self)@[g as int].1) == spec_get_server(old(self)@[g as int].1, ip_hash, now),
            final(self)@ == old(self)@.update(g as int, (old(self)@[g as int].0, final(self)@[g as int].1)),
            r < old(self)@[g as int].1.servers.len(),
            final(self)@[g as int].1.servers == old(self)@[g as int].1.servers,
    {
        let mut entry = (String::new(), dummy_upstream());
        self.groups.set_and_swap(g, &mut entry);
        assert(entry.1.wf());
        let r = entry.1.get_server(ip_hash, now);
        self.groups.set_and_swap(g, &mut entry);
        assert(self@ =~= old(self)@.update(g as int, (old(self)@[g as int].0, self@[g as int].1)));
        r
    }

    /// Records a failure of server `s` of group `g` at `now`.
    pub fn add_failure(&mut self, g: usize, s: usize, now: u128)
        requires
            old(self).wf(),
            g < old(self)@.len(),
            s < old(self)@[g as int].1.servers.len(),
        ensures
            final(self).wf(),
            final(self)@ == old(self)@.update(g as int, (old(self)@[g as int].0, UpstreamV {
                failures: old(self)@[g as int].1.failures.update(s as int, old(self)@[g as int].1.failures[s as int].push(now)),
                ..old(self)@[g as int].1
            })),
    {
        let mut entry = (String::new(), dummy_upstream());
        self.groups.set_and_swap(g, &mut entry);
        entry.1.add_failure(s, now);
        self.groups.set_and_swap(g, &mut entry);
        assert(self@ =~= old(self)@.update(g as int, (old(self)@[g as int].0, self@[g as int].1)));
    }

    /// Closes a connection to server `s` of group `g`.
    pub fn close_connection(&mut self, g: usize, s: usize)
        requires
            old(self).wf(),
            g < old(self)@.len(),
            s < old(self)@[g as int].1.servers.len(),
        ensures
            final(self).wf(),
            final(self)@ == old(self)@.update(g as int, (old(self)@[g as int].0, spec_close(old(self)@[g as int].1, s as int))),
    {
        let mut entry = (String::new(), dummy_upstream());
        self.groups.set_and_swap(g, &mut entry);
        entry.1.close_connection(s);
        self.groups.set_and_swap(g, &mut entry);
        assert(self@ =~= old(self)@.update(g as int, (old(self)@[g as int].0, self@[g as int].1)));
    }
}

fn dummy_upstream() -> (u: Upstream)
    ensures
        u.wf(),
{
    let u = Upstream {
        balancer: Balancer::IpHash,
        servers: Vec::new(),
        failures: Vec::new(),
        max_fails: 1,
        connect_timeout: 0,
        fail_timeout: 0,
        header_timeout: 0,
        body_timeout: 0,
        send_timeout: 0,
    };
    assert(u@.failures =~= Seq::<Seq<u128>>::empty());
    u
}

/// The run-time groups for the configured ones, in the same order.
pub fn make_upstreams(config: config::Upstreams) -> (r: UpstreamPool)
    ensures
        r.wf(),
        r@.len() == config@.len(),
        forall|i: int| 0 <= i < r@.len() ==> #[trigger] r@[i] == (config@[i].0, spec_make_upstream(config@[i].1)),
{
    let ghost cv = config@;
    let mut groups: Vec<(String, Upstream)> = Vec::new();
    let mut source = config.groups;
    let mut rest: Vec<(String, config::Upstream)> = Vec::new();
    // Take the groups out in order.
    while source.len() > 0
        invariant
            rest@.len() + source@.len() == cv.len(),
            forall|i: int| 0 <= i < source@.len() ==> (source@[i].0@, source@[i].1@) == cv[i],
            forall|i: int| 0 <= i < rest@.len() ==> (rest@[i].0@, rest@[i].1@) == cv[cv.len() - 1 - i],
        decreases source@.len(),
    {
        let e = source.pop().unwrap();
        rest.push(e);
    }
    while rest.len() > 0
        invariant
            groups@.len() + rest@.len() == cv.len(),
            forall|i: int| 0 <= i < rest@.len() ==> (rest@[i].0@, rest@[i].1@) == cv[cv.len() - 1 - i],
            forall|i: int| 0 <= i < groups@.len() ==> (#[trigger] groups@[i]).1.wf() && groups@[i].0@ == cv[i].0
                && groups@[i].1@ == spec_make_upstream(cv[i].1),
        decreases rest@.len(),
    {
        let (name, up) = rest.pop().unwrap();
        let u = make_upstream(up);
        groups.push((name, u));
    }
    let r = UpstreamPool { groups };
    assert forall|i: int| 0 <= i < r@.len() implies #[trigger] r@[i] == (cv[i].0, spec_make_upstream(cv[i].1)) by {
        let g = r.groups@[i];
        assert(r@[i] == (g.0@, g.1@));
    }
    assert forall|i: int| 0 <= i < r.groups@.len() implies #[trigger] r.groups@[i].1.wf() by {
        let g = r.groups@[i];
    }
    r
}


// ----------------------------------------------------------------------------
// Passing a request on
// ----------------------------------------------------------------------------

/// The request that is passed on: version 1.1, the `Host` field set to the
/// host of its URI where that has one, the first `prefix` characters of its
/// path replaced by the target's path where that is not empty, and the
/// route's extra fields `extra` set on top.
pub open spec fn spec_proxy_request(q: RequestV, target: UriV, prefix: int, extra: Entries) -> RequestV {
    let h = if uri_host(q.start_line.uri).len() > 0 {
        spec_insert(q.headers, "Host"@, uri_host(q.start_line.uri))
    } else {
        q.headers
    };
    let u = if uri_path(target).len() > 0 {
        spec_replace_path_prefix(q.start_line.uri, prefix, uri_path(target))
    } else {
        q.start_line.uri
    };
    RequestV {
        start_line: StartLineV { method: q.start_line.method, uri: u, version: HttpVersion(1, 1) },
        headers: insert_all(h, extra),
        body: q.body,
    }
}

/// Whether the request's path can take the target's path in place of its
/// first `prefix` characters.
pub open spec fn path_replaceable(q: RequestV, target: UriV, prefix: int) -> bool {
    uri_path(target).len() > 0 ==> {
        &&& uri_ordered(q.start_line.uri)
        &&& prefix <= q.start_line.uri.path.1 - q.start_line.uri.path.0
        &&& q.start_line.uri.full.len() + uri_path(target).len() < usize::MAX
    }
}

/// How many characters the first `prefix` bytes of the request's path make
/// up (0 where they do not end between characters of the path).
pub open spec fn prefix_in_chars(q: RequestV, prefix: int) -> int {
    match prefix_chars(uri_path(q.start_line.uri), prefix) {
        Some(k) => k,
        None => 0,
    }
}

/// Whether the request's path can take the target's path in place of its
/// first `prefix` bytes: they end between characters of the path, and the
/// characters they make up can be replaced (see `path_replaceable`).
pub open spec fn prefix_replaceable(q: RequestV, target: UriV, prefix: int) -> bool {
    &&& uri_path(target).len() > 0 ==> prefix_chars(uri_path(q.start_line.uri), prefix) is Some
    &&& path_replaceable(q, target, prefix_in_chars(q, prefix))
}

/// Builds the request that is passed on (see `spec_proxy_request`).
pub fn proxy_request(request: &Request, target: &Uri, prefix: usize, extra: &StrMap) -> (r: Request)
    requires
        uri_wf(request@.start_line.uri),
        uri_wf(target@),
        path_replaceable(request@, target@, prefix as int),
    ensures
        r@ == spec_proxy_request(request@, target@, prefix as int, extra@),
{
    let mut q = request.copy();
    q.start_line.version = HttpVersion(1, 1);
    let h = request.start_line.uri.host();
    if chars_of(h).len() > 0 {
        q.headers.insert("Host".to_string(), h.to_string());
    }
    let p = target.path();
    if chars_of(p).len() > 0 {
        q.start_line.uri.replace_path_prefix(prefix, p);
    }
    q.headers.insert_all(extra);
    q
}

/// Where and how a request is passed on.
pub struct ProxyTarget {
    /// The group and server that were chosen, if the target names a group.
    pub upstream: Option<(usize, usize)>,
    /// What to connect to: `host` or `host:port`.
    pub host: String,
    /// Timeouts in nanoseconds.
    pub connect_timeout: u128,
    pub header_timeout: u128,
    pub body_timeout: u128,
    pub send_timeout: u128,
    /// Whether to speak TLS (the target's scheme is `https`).
    pub tls: bool,
    /// The request to send.
    pub request: Request,
}

/// The pool once server `s` of group `g` was chosen and its connection closed
/// again.
pub open spec fn pool_after_close(p: Seq<(Seq<char>, UpstreamV)>, g: int, s: int) -> Seq<
    (Seq<char>, UpstreamV),
> {
    p.update(g, (p[g].0, spec_close(p[g].1, s)))
}

/// The groups after a passed-on request to server `s` of group `g` is done:
/// a failure at `now` recorded where the exchange failed, then the
/// connection closed.
pub open spec fn pool_after_done(p: Seq<(Seq<char>, UpstreamV)>, g: int, s: int, failed: bool, now: u128) -> Seq<
    (Seq<char>, UpstreamV),
> {
    let u = p[g].1;
    let marked = if failed {
        p.update(g, (p[g].0, UpstreamV { failures: u.failures.update(s, u.failures[s].push(now)), ..u }))
    } else {
        p
    };
    pool_after_close(marked, g, s)
}

/// A request passed on to a least-connected group `g` at `now`: on the way
/// out, whether an error comes back before the exchange (the server is
/// released at once) or `proxy_done` runs after it at `later`, the group's
/// connection counts are what they were before the server was chosen. Once
/// the exchange is done, the chosen server has exactly one failure more than
/// the choice left it with where the exchange failed, and none more
/// otherwise; the other servers' failures and the other groups stay as the
/// choice left them.
pub proof fn law_proxy_release(
    p: Seq<(Seq<char>, UpstreamV)>,
    g: int,
    ip_hash: u64,
    now: u128,
    failed: bool,
    later: u128,
)
    requires
        0 <= g < p.len(),
        upstream_wf(p[g].1),
        p[g].1.servers.len() > 0,
        p[g].1.balancer is LeastConnected,
    ensures
        ({
            let up = p[g].1;
            let (s, chosen) = spec_get_server(up, ip_hash, now);
            let picked = p.update(g, (p[g].0, chosen));
            let after = pool_after_done(picked, g, s, failed, later);
            &&& pool_after_close(picked, g, s)[g].1.balancer == up.balancer
            &&& after[g].1.balancer == up.balancer
            &&& after[g].1.failures[s] == (if failed {
                chosen.failures[s].push(later)
            } else {
                chosen.failures[s]
            })
            &&& forall|k: int| 0 <= k < chosen.failures.len() && k != s ==> after[g].1.failures[k]
                == chosen.failures[k]
            &&& after[g].1.failures.len() == chosen.failures.len()
            &&& forall|h: int| 0 <= h < p.len() && h != g ==> after[h] == p[h]
        }),
{
    let up = p[g].1;
    law_close_undoes_get(up, ip_hash, now);
    let counts = up.balancer->LeastConnected_0;
    lemma_least_healthy(up, counts, up.servers.len() as int, now);
}

/// Sixty seconds, in nanoseconds.
pub open spec fn default_timeout() -> u128 {
    60_000_000_000
}

/// For a least-connected group that `domain` names, the pool after
/// `proxy_target` gave `r`: where no target came back the group's
/// connection counts are what they were; where one came back, whatever
/// `proxy_done` then records for its server, the counts return to what they
/// were.
pub open spec fn released_in_the_end(
    before: Seq<(Seq<char>, UpstreamV)>,
    after: Seq<(Seq<char>, UpstreamV)>,
    domain: Seq<char>,
    r: Option<Result<ProxyTarget, ProxyError>>,
) -> bool {
    match group_index(before, domain) {
        None => true,
        Some(g) => before[g].1.balancer is LeastConnected ==> match r {
            Some(Ok(t)) => t.upstream matches Some((g2, s)) && g2 == g && forall|failed: bool, later: u128|
                (#[trigger] pool_after_done(after, g, s as int, failed, later))[g].1.balancer
                    == before[g].1.balancer,
            _ => after[g].1.balancer == before[g].1.balancer,
        },
    }
}

/// Works out where `request` goes for a route whose target is `target`
/// (`prefix` being how many bytes of the path the route matched, `extra` the
/// route's extra fields): a target whose domain names an upstream group
/// takes a server of the group (for a client whose address hashes to
/// `ip_hash`, at time `now`), whose address may hold variables; any other
/// target is reached at its own host. The timeouts are the group's, else 60
/// seconds.
///
/// A server that was chosen is released again where an error comes back;
/// otherwise `proxy_done` releases it. `None` where the program panics: the
/// group has no servers, or the path cannot be replaced (see
/// `prefix_replaceable`).
pub fn proxy_target(
    target: &Uri,
    request: &Request,
    prefix: usize,
    extra: &StrMap,
    pool: &mut UpstreamPool,
    ip_hash: u64,
    now: u128,
    env: &StrMap,
) -> (r: Option<Result<ProxyTarget, ProxyError>>)
    requires
        old(pool).wf(),
        uri_wf(target@),
        uri_wf(request@.start_line.uri),
    ensures
        final(pool).wf(),
        match group_index(old(pool)@, uri_domain(target@)) {
            None => {
                &&& final(pool)@ == old(pool)@
                &&& match r {
                    None => !prefix_replaceable(request@, target@, prefix as int),
                    Some(Err(_)) => false,
                    Some(Ok(t)) => {
                        &&& prefix_replaceable(request@, target@, prefix as int)
                        &&& t.upstream is None
                        &&& t.host@ == uri_host(target@)
                        &&& t.connect_timeout == default_timeout()
                        &&& t.header_timeout == default_timeout()
                        &&& t.body_timeout == default_timeout()
                        &&& t.send_timeout == default_timeout()
                        &&& t.tls == (uri_scheme(target@) == "https"@)
                        &&& t.request@ == spec_proxy_request(
                            request@,
                            target@,
                            prefix_in_chars(request@, prefix as int),
                            extra@,
                        )
                    },
                }
            },
            Some(g) => {
                let up = old(pool)@[g].1;
                if up.servers.len() == 0 {
                    r is None && final(pool)@ == old(pool)@
                } else {
                    let (s, chosen) = spec_get_server(up, ip_hash, now);
                    let picked = old(pool)@.update(g, (old(pool)@[g].0, chosen));
                    match spec_replace_vars(up.servers[s], request@, env@) {
                        Err(n) => r matches Some(Err(ProxyError::VarError(e))) && e@ == n
                            && final(pool)@ == pool_after_close(picked, g, s),
                        Ok(addr) => match r {
                            None => !prefix_replaceable(request@, target@, prefix as int)
                                && final(pool)@ == pool_after_close(picked, g, s),
                            Some(Err(_)) => false,
                            Some(Ok(t)) => {
                                &&& prefix_replaceable(request@, target@, prefix as int)
                                &&& final(pool)@ == picked
                                &&& t.upstream == Some((g as usize, s as usize))
                                &&& t.host@ == (if addr.len() == 0 {
                                    uri_host(target@)
                                } else {
                                    addr
                                })
                                &&& t.connect_timeout == chosen.connect_timeout
                                &&& t.header_timeout == chosen.header_timeout
                                &&& t.body_timeout == chosen.body_timeout
                                &&& t.send_timeout == chosen.send_timeout
                                &&& t.tls == (uri_scheme(target@) == "https"@)
                                &&& t.request@ == spec_proxy_request(
                                    request@,
                                    target@,
                                    prefix_in_chars(request@, prefix as int),
                                    extra@,
                                )
                            },
                        },
                    }
                }
            },
        },
        released_in_the_end(old(pool)@, final(pool)@, uri_domain(target@), r),
{
    proof {
        pool.lemma_groups_wf();
        lemma_group_index_found(pool@, uri_domain(target@));
        if let Some(g) = group_index(pool@, uri_domain(target@)) {
            let up = pool@[g].1;
            if up.servers.len() > 0 && up.balancer is LeastConnected {
                assert(upstream_wf(up));
                let (s, chosen) = spec_get_server(up, ip_hash, now);
                let picked = pool@.update(g, (pool@[g].0, chosen));
                assert forall|failed: bool, later: u128|
                    (#[trigger] pool_after_done(picked, g, s, failed, later))[g].1.balancer
                        == up.balancer by {
                    law_proxy_release(pool@, g, ip_hash, now, failed, later);
                }
                law_proxy_release(pool@, g, ip_hash, now, false, 0);
            }
        }
    }
    let domain = target.domain();
    let tls = crate::text::str_eq(target.scheme(), "https");
    let found = pool.find(domain);
    proof {
        match found {
            Some(g) => lemma_group_index_at(pool@, uri_domain(target@), g as int),
            None => {},
        }
    }
    let pc = chars_of(request.start_line.uri.path());
    let in_chars = byte_prefix_chars(pc.as_slice(), prefix);
    proof {
        lemma_prefix_chars_fits(pc@, prefix as int);
    }
    let chars: usize = match in_chars {
        Some(k) => k,
        None => 0,
    };
    let replaceable = {
        let p = chars_of(target.path());
        p.len() == 0 || (request.start_line.uri.is_ordered() && in_chars.is_some()
            && request.start_line.uri.full_len() < usize::MAX - p.len())
    };
    match found {
        None => {
            if !replaceable {
                return None;
            }
            let host = target.host().to_string();
            let sixty: u128 = 60 * NANOS_PER_SEC;
            Some(
                Ok(
                    ProxyTarget {
                        upstream: None,
                        host,
                        connect_timeout: sixty,
                        header_timeout: sixty,
                        body_timeout: sixty,
                        send_timeout: sixty,
                        tls,
                        request: proxy_request(request, target, chars, extra),
                    },
                ),
            )
        },
        Some(g) => {
            if pool.group(g).len() == 0 {
                return None;
            }
            let s = pool.get_server(g, ip_hash, now);
            let address = match replace_vars(pool.group(g).server(s).as_str(), request, env) {
                Ok(a) => a,
                Err(e) => {
                    pool.close_connection(g, s);
                    return Some(Err(ProxyError::VarError(e)));
                },
            };
            if !replaceable {
                pool.close_connection(g, s);
                return None;
            }
            let host = if chars_of(address.as_str()).len() == 0 {
                target.host().to_string()
            } else {
                address
            };
            let (connect_timeout, header_timeout, body_timeout, send_timeout) = pool.group(g).timeouts();
            Some(
                Ok(
                    ProxyTarget {
                        upstream: Some((g, s)),
                        host,
                        connect_timeout,
                        header_timeout,
                        body_timeout,
                        send_timeout,
                        tls,
                        request: proxy_request(request, target, chars, extra),
                    },
                ),
            )
        },
    }
}

/// Releases the server a passed-on request went to, after recording a
/// failure at `now` where the exchange failed.
pub fn proxy_done(pool: &mut UpstreamPool, upstream: Option<(usize, usize)>, failed: bool, now: u128)
    requires
        old(pool).wf(),
        upstream matches Some((g, s)) ==> g < old(pool)@.len() && s < old(pool)@[g as int].1.servers.len(),
    ensures
        final(pool).wf(),
        match upstream {
            None => final(pool)@ == old(pool)@,
            Some((g, s)) => final(pool)@ == pool_after_done(old(pool)@, g as int, s as int, failed, now),
        },
{
    if let Some((g, s)) = upstream {
        if failed {
            pool.add_failure(g, s, now);
        }
        pool.close_connection(g, s);
    }
}

/// Whether `rustls::pki_types::DnsName::try_from_str` accepts the name.
pub uninterp spec fn spec_dns_name_valid(name: Seq<char>) -> bool;

/// `rustls::pki_types::DnsName::try_from_str`. Trusted: it accepts or refuses
/// a name by the name alone.
#[verifier::external_body]
fn dns_name_valid(name: &str) -> (r: bool)
    ensures
        r == spec_dns_name_valid(name@),
{
    rustls::pki_types::DnsName::try_from_str(name).is_ok()
}

/// The part of `host` before its first colon: the name without the port.
pub open spec fn host_domain(host: Seq<char>) -> Seq<char> {
    match crate::text::find_char(host, ':') {
        Some(e) => host.take(e),
        None => host,
    }
}

pub fn domain_of_host(host: &str) -> (r: String)
    ensures
        r@ == host_domain(host@),
{
    let h = chars_of(host);
    match crate::text::chars_find(h.as_slice(), ':') {
        Some(e) => {
            let cut = crate::text::chars_range(h.as_slice(), 0, e);
            assert(cut@ =~= h@.take(e as int));
            crate::text::string_from_chars(cut.as_slice())
        },
        None => crate::text::string_from_chars(h.as_slice()),
    }
}

/// Whether the server a request is passed to can be named to TLS: its domain
/// (see `host_domain`) is an IP address, as the caller found `is_ip`, or a
/// valid DNS name. Checked for every passed-on request, with TLS or without.
pub fn check_server_name(domain: &str, is_ip: bool) -> (r: Result<(), ProxyError>)
    ensures
        r is Ok <==> (is_ip || spec_dns_name_valid(domain@)),
        r is Err ==> r matches Err(ProxyError::DomainNameError),
{
    if is_ip || dns_name_valid(domain) {
        Ok(())
    } else {
        Err(ProxyError::DomainNameError)
    }
}

} // verus!
