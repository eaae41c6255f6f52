//! Byte accounting of a relayed TCP connection and the reasons a relay ends with.
use vstd::prelude::*;
use crate::session::sat_add;
use crate::text::{push_str, string_from_chars};

verus! {

/// Shortest interval between two published byte counts, in milliseconds.
pub const PUBLISH_INTERVAL_MS: u64 = 100;

/// A byte count crossing a multiple of this is published at once.
pub const PUBLISH_STEP_BYTES: u64 = 1048576;

/// Running byte count of one copy direction and when it was last published. Each direction
/// publishes its own running total as the connection's visible byte count.
#[derive(Clone, Copy, Debug, PartialEq, Eq, Structural)]
pub struct PumpProgress {
    pub total: u64,
    pub last_publish: u64,
}

/// Whether a count moving from `before` to `after` bytes at `now` is published.
pub open spec fn should_publish(before: u64, after: u64, last_publish: u64, now: u64) -> bool {
    (now >= last_publish && now - last_publish >= PUBLISH_INTERVAL_MS) || before
        / PUBLISH_STEP_BYTES != after / PUBLISH_STEP_BYTES
}

impl PumpProgress {
    /// A direction that has copied nothing, started at `now`.
    pub fn new(now: u64) -> (r: Self)
        ensures
            r.total == 0,
            r.last_publish == now,
    {
        PumpProgress { total: 0, last_publish: now }
    }

    /// Counts `n` more bytes copied at `now`. Returns the count to publish when at least the
    /// publish interval has passed or a 1 MiB boundary was crossed.
    pub fn record(&mut self, n: u64, now: u64) -> (r: Option<u64>)
        ensures
            final(self).total == sat_add(old(self).total, n),
            should_publish(old(self).total, final(self).total, old(self).last_publish, now) ==> {
                &&& r == Some(final(self).total)
                &&& final(self).last_publish == now
            },
            !should_publish(old(self).total, final(self).total, old(self).last_publish, now) ==> {
                &&& r is None
                &&& final(self).last_publish == old(self).last_publish
            },
    {
        let before = self.total;
        let after = if before > u64::MAX - n {
            u64::MAX
        } else {
            before + n
        };
        self.total = after;
        if (now >= self.last_publish && now - self.last_publish >= PUBLISH_INTERVAL_MS) || before
            / PUBLISH_STEP_BYTES != after / PUBLISH_STEP_BYTES {
            self.last_publish = now;
            Some(after)
        } else {
            None
        }
    }
}

/// `prefix` followed by `detail`.
fn prefixed(prefix: &str, detail: &str) -> (r: String)
    ensures
        r@ == prefix@ + detail@,
{
    let mut out: Vec<char> = Vec::new();
    push_str(&mut out, prefix);
    push_str(&mut out, detail);
    string_from_chars(&out)
}

/// Reason recorded when the upstream of a TCP connection cannot be reached.
pub fn target_connect_failed(err: &str) -> (r: String)
    ensures
        r@ == "Target connect failed: "@ + err@,
{
    prefixed("Target connect failed: ", err)
}

/// Reason recorded when a TCP copy fails.
pub fn proxy_error(err: &str) -> (r: String)
    ensures
        r@ == "Proxy error: "@ + err@,
{
    prefixed("Proxy error: ", err)
}

/// Reason recorded when a UDP session cannot open its upstream socket.
pub fn udp_bind_failed(err: &str) -> (r: String)
    ensures
        r@ == "UDP bind failed: "@ + err@,
{
    prefixed("UDP bind failed: ", err)
}

/// Reason recorded when a UDP session cannot reach its upstream.
pub fn udp_connect_failed(err: &str) -> (r: String)
    ensures
        r@ == "UDP connect failed: "@ + err@,
{
    prefixed("UDP connect failed: ", err)
}

/// Reason reported when the listeners of a rule fail to start.
pub fn listener_failed(err: &str) -> (r: String)
    ensures
        r@ == "Listener failed: "@ + err@,
{
    prefixed("Listener failed: ", err)
}

} // verus!
