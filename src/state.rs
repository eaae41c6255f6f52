//! Records and the shared state that admission, relays and the rule engine work on.
use vstd::prelude::*;
use crate::geo::GeoPortEntry;
use crate::protocol::ProtocolMode;

verus! {

/// Retention cap of the connection log.
pub const MAX_HISTORY: usize = 10000;

/// Length of the sliding rate window, in milliseconds.
pub const RATE_WINDOW_MS: u64 = 60000;

/// A forwarding rule.
#[derive(Debug)]
pub struct ProxyRule {
    pub id: u64,
    pub listen_addr: String,
    pub target_addr: String,
    pub enabled: bool,
    pub created_at: String,
    pub protocol: ProtocolMode,
}

/// A client address listed for one port (blocklist or allowlist).
#[derive(Debug)]
pub struct PortEntry {
    pub ip: String,
    pub port: u16,
}

/// A finished or refused connection.
#[derive(Debug)]
pub struct ConnectionLog {
    pub id: u64,
    pub rule_id: u64,
    pub client_ip: String,
    pub listen_port: Option<u16>,
    pub started_at: String,
    pub ended_at: Option<String>,
    pub bytes_up: u64,
    pub bytes_down: u64,
    pub blocked: bool,
    pub reason: Option<String>,
}

/// A connection that was admitted and has not finished.
#[derive(Debug)]
pub struct ActiveConn {
    pub conn_id: u64,
    pub rule_id: u64,
    pub client_ip: String,
    pub listen_port: Option<u16>,
    pub started_at: String,
    pub bytes_transferred: u64,
    pub last_update: String,
}

/// Admission limits; each is at least 1 once set through the control surface.
#[derive(Clone, Copy, Debug, PartialEq, Eq, Structural)]
pub struct RateLimitConfig {
    pub max_new_connections_per_minute: u32,
    pub max_concurrent_connections_per_ip: u32,
    pub max_concurrent_total: u32,
}

impl Default for RateLimitConfig {
    fn default() -> (r: Self)
        ensures
            r.max_new_connections_per_minute == 120,
            r.max_concurrent_connections_per_ip == 50,
            r.max_concurrent_total == 2000,
    {
        RateLimitConfig {
            max_new_connections_per_minute: 120,
            max_concurrent_connections_per_ip: 50,
            max_concurrent_total: 2000,
        }
    }
}

/// Number of active connections of one client address.
#[derive(Clone, Debug)]
pub struct IpCount {
    pub ip: String,
    pub count: u64,
}

/// Admission times of one client address inside the rate window, oldest first.
#[derive(Clone, Debug)]
pub struct RateWindow {
    pub ip: String,
    pub stamps: Vec<u64>,
}

/// Rules, policy, live connections and the connection log.
pub struct ProxyState {
    pub rules: Vec<ProxyRule>,
    pub blocklist: Vec<String>,
    pub port_blocklist: Vec<PortEntry>,
    pub allowlist: Vec<String>,
    pub allowlist_ports: Vec<PortEntry>,
    pub allowlist_enabled: bool,
    pub geo_blocklist: Vec<String>,
    pub geo_port_blocklist: Vec<GeoPortEntry>,
    pub history: Vec<ConnectionLog>,
    pub rate_limit: RateLimitConfig,
    pub active: Vec<ActiveConn>,
    pub active_by_ip: Vec<IpCount>,
    pub rate_windows: Vec<RateWindow>,
    pub next_rule_id: u64,
    pub next_conn_id: u64,
}

impl Clone for ProxyRule {
    fn clone(&self) -> (r: Self)
        ensures
            r == *self,
    {
        ProxyRule {
            id: self.id,
            listen_addr: self.listen_addr.clone(),
            target_addr: self.target_addr.clone(),
            enabled: self.enabled,
            created_at: self.created_at.clone(),
            protocol: self.protocol,
        }
    }
}

impl Clone for PortEntry {
    fn clone(&self) -> (r: Self)
        ensures
            r == *self,
    {
        PortEntry { ip: self.ip.clone(), port: self.port }
    }
}

fn clone_opt_string(s: &Option<String>) -> (r: Option<String>)
    ensures
        r == *s,
{
    match s {
        Some(v) => Some(v.clone()),
        None => None,
    }
}

impl Clone for ConnectionLog {
    fn clone(&self) -> (r: Self)
        ensures
            r == *self,
    {
        ConnectionLog {
            id: self.id,
            rule_id: self.rule_id,
            client_ip: self.client_ip.clone(),
            listen_port: self.listen_port,
            started_at: self.started_at.clone(),
            ended_at: clone_opt_string(&self.ended_at),
            bytes_up: self.bytes_up,
            bytes_down: self.bytes_down,
            blocked: self.blocked,
            reason: clone_opt_string(&self.reason),
        }
    }
}

impl Clone for ActiveConn {
    fn clone(&self) -> (r: Self)
        ensures
            r == *self,
    {
        ActiveConn {
            conn_id: self.conn_id,
            rule_id: self.rule_id,
            client_ip: self.client_ip.clone(),
            listen_port: self.listen_port,
            started_at: self.started_at.clone(),
            bytes_transferred: self.bytes_transferred,
            last_update: self.last_update.clone(),
        }
    }
}

pub open spec fn has_str(v: Seq<String>, s: Seq<char>) -> bool {
    exists|i: int| 0 <= i < v.len() && (#[trigger] v[i])@ == s
}

pub open spec fn has_port_ip(v: Seq<PortEntry>, port: u16, ip: Seq<char>) -> bool {
    exists|i: int| 0 <= i < v.len() && (#[trigger] v[i]).port == port && v[i].ip@ == ip
}

pub open spec fn has_port(v: Seq<PortEntry>, port: u16) -> bool {
    exists|i: int| 0 <= i < v.len() && (#[trigger] v[i]).port == port
}

pub open spec fn has_port_country(v: Seq<GeoPortEntry>, port: u16, c: Seq<char>) -> bool {
    exists|i: int| 0 <= i < v.len() && (#[trigger] v[i]).port == port && v[i].country@ == c
}

/// No address is listed twice.
pub open spec fn strs_unique(v: Seq<String>) -> bool {
    forall|i: int, j: int| 0 <= i < j < v.len() ==> (#[trigger] v[i])@ != (#[trigger] v[j])@
}

/// No `(port, address)` pair is listed twice.
pub open spec fn ports_unique(v: Seq<PortEntry>) -> bool {
    forall|i: int, j: int|
        0 <= i < j < v.len() ==> !((#[trigger] v[i]).port == (#[trigger] v[j]).port && v[i].ip@
            == v[j].ip@)
}

/// No `(port, country)` pair is listed twice.
pub open spec fn geo_unique(v: Seq<GeoPortEntry>) -> bool {
    forall|i: int, j: int|
        0 <= i < j < v.len() ==> !((#[trigger] v[i]).port == (#[trigger] v[j]).port
            && v[i].country@ == v[j].country@)
}

/// Every admission limit is at least 1.
pub open spec fn limits_positive(r: RateLimitConfig) -> bool {
    r.max_new_connections_per_minute >= 1 && r.max_concurrent_connections_per_ip >= 1
        && r.max_concurrent_total >= 1
}

/// Number of entries of `s` whose client address is `ip`.
pub open spec fn count_ip(s: Seq<ActiveConn>, ip: Seq<char>) -> nat
    decreases s.len(),
{
    if s.len() == 0 {
        0
    } else {
        count_ip(s.drop_last(), ip) + if s.last().client_ip@ == ip {
            1nat
        } else {
            0nat
        }
    }
}

/// Sum of the stored per-address counters.
pub open spec fn sum_counts(c: Seq<IpCount>) -> nat
    decreases c.len(),
{
    if c.len() == 0 {
        0
    } else {
        sum_counts(c.drop_last()) + c.last().count as nat
    }
}

/// The rate window of `ip`, empty when none is kept.
pub open spec fn window_of(w: Seq<RateWindow>, ip: Seq<char>) -> Seq<u64> {
    if exists|i: int| 0 <= i < w.len() && (#[trigger] w[i]).ip@ == ip {
        let i = choose|i: int| 0 <= i < w.len() && (#[trigger] w[i]).ip@ == ip;
        w[i].stamps@
    } else {
        Seq::empty()
    }
}

pub open spec fn ips_unique_counts(c: Seq<IpCount>) -> bool {
    forall|i: int, j: int| 0 <= i < j < c.len() ==> (#[trigger] c[i]).ip@ != (#[trigger] c[j]).ip@
}

pub open spec fn ips_unique_windows(w: Seq<RateWindow>) -> bool {
    forall|i: int, j: int| 0 <= i < j < w.len() ==> (#[trigger] w[i]).ip@ != (#[trigger] w[j]).ip@
}

/// The counters agree with the active set: one entry per address with a live connection,
/// holding its number of live connections.
pub open spec fn counters_match(c: Seq<IpCount>, active: Seq<ActiveConn>) -> bool {
    &&& ips_unique_counts(c)
    &&& forall|i: int|
        0 <= i < c.len() ==> (#[trigger] c[i]).count == count_ip(active, c[i].ip@) && c[i].count
            > 0
    &&& forall|j: int| 0 <= j < active.len() ==> has_counter(c, (#[trigger] active[j]).client_ip@)
}

/// Some counter entry is kept for `ip`.
pub open spec fn has_counter(c: Seq<IpCount>, ip: Seq<char>) -> bool {
    exists|i: int| 0 <= i < c.len() && (#[trigger] c[i]).ip@ == ip
}

impl ProxyState {
    pub open spec fn wf(&self) -> bool {
        &&& self.history@.len() <= MAX_HISTORY
        &&& strs_unique(self.blocklist@)
        &&& strs_unique(self.allowlist@)
        &&& strs_unique(self.geo_blocklist@)
        &&& ports_unique(self.port_blocklist@)
        &&& ports_unique(self.allowlist_ports@)
        &&& geo_unique(self.geo_port_blocklist@)
        &&& limits_positive(self.rate_limit)
        &&& counters_match(self.active_by_ip@, self.active@)
        &&& ips_unique_windows(self.rate_windows@)
        &&& forall|i: int, j: int|
            0 <= i < j < self.active@.len() ==> (#[trigger] self.active@[i]).conn_id
                < (#[trigger] self.active@[j]).conn_id
        &&& forall|i: int|
            0 <= i < self.active@.len() ==> (#[trigger] self.active@[i]).conn_id
                < self.next_conn_id
        &&& forall|i: int|
            0 <= i < self.rules@.len() ==> (#[trigger] self.rules@[i]).id < self.next_rule_id
        &&& forall|i: int|
            0 <= i < self.history@.len() ==> (#[trigger] self.history@[i]).id < self.next_conn_id
    }

    pub open spec fn window(&self, ip: Seq<char>) -> Seq<u64> {
        window_of(self.rate_windows@, ip)
    }
}

pub fn contains_str(v: &Vec<String>, s: &String) -> (r: bool)
    ensures
        r == has_str(v@, s@),
{
    let mut i: usize = 0;
    while i < v.len()
        invariant
            i <= v@.len(),
            forall|k: int| 0 <= k < i ==> (#[trigger] v@[k])@ != s@,
        decreases v@.len() - i,
    {
        if v[i] == *s {
            return true;
        }
        i = i + 1;
    }
    false
}

pub fn contains_port_ip(v: &Vec<PortEntry>, port: u16, ip: &String) -> (r: bool)
    ensures
        r == has_port_ip(v@, port, ip@),
{
    let mut i: usize = 0;
    while i < v.len()
        invariant
            i <= v@.len(),
            forall|k: int| 0 <= k < i ==> !((#[trigger] v@[k]).port == port && v@[k].ip@ == ip@),
        decreases v@.len() - i,
    {
        if v[i].port == port && v[i].ip == *ip {
            return true;
        }
        i = i + 1;
    }
    false
}

pub fn contains_port(v: &Vec<PortEntry>, port: u16) -> (r: bool)
    ensures
        r == has_port(v@, port),
{
    let mut i: usize = 0;
    while i < v.len()
        invariant
            i <= v@.len(),
            forall|k: int| 0 <= k < i ==> (#[trigger] v@[k]).port != port,
        decreases v@.len() - i,
    {
        if v[i].port == port {
            return true;
        }
        i = i + 1;
    }
    false
}

pub fn contains_port_country(v: &Vec<GeoPortEntry>, port: u16, c: &String) -> (r: bool)
    ensures
        r == has_port_country(v@, port, c@),
{
    let mut i: usize = 0;
    while i < v.len()
        invariant
            i <= v@.len(),
            forall|k: int|
                0 <= k < i ==> !((#[trigger] v@[k]).port == port && v@[k].country@ == c@),
        decreases v@.len() - i,
    {
        if v[i].port == port && v[i].country == *c {
            return true;
        }
        i = i + 1;
    }
    false
}

} // verus!
