//! Live connections, per-address counters and the bounded connection log.
use vstd::prelude::*;
use crate::admission::{lemma_count_le_len, lemma_count_push, lemma_count_zero, lemma_ids_bound, Rejection};
use crate::state::{
    count_ip, counters_match, has_counter, ips_unique_counts, sum_counts, ActiveConn, ConnectionLog, IpCount,
    ProxyState, RateLimitConfig, MAX_HISTORY,
};

verus! {

pub proof fn lemma_count_pos(s: Seq<ActiveConn>, j: int)
    requires
        0 <= j < s.len(),
    ensures
        count_ip(s, s[j].client_ip@) >= 1,
    decreases s.len(),
{
    if j < s.len() - 1 {
        lemma_count_pos(s.drop_last(), j);
    }
}

pub proof fn lemma_count_remove(s: Seq<ActiveConn>, k: int, ip: Seq<char>)
    requires
        0 <= k < s.len(),
    ensures
        count_ip(s.remove(k), ip) + (if s[k].client_ip@ == ip { 1nat } else { 0nat }) == count_ip(
            s,
            ip,
        ),
    decreases s.len(),
{
    if k == s.len() - 1 {
        assert(s.remove(k) == s.drop_last());
    } else {
        lemma_count_remove(s.drop_last(), k, ip);
        assert(s.remove(k).drop_last() == s.drop_last().remove(k));
        assert(s.remove(k).last() == s.last());
    }
}

fn find_counter(c: &Vec<IpCount>, ip: &String) -> (r: Option<usize>)
    ensures
        match r {
            Some(i) => i < c@.len() && c@[i as int].ip@ == ip@,
            None => forall|k: int| 0 <= k < c@.len() ==> (#[trigger] c@[k]).ip@ != ip@,
        },
{
    let mut i: usize = 0;
    while i < c.len()
        invariant
            i <= c@.len(),
            forall|k: int| 0 <= k < i ==> (#[trigger] c@[k]).ip@ != ip@,
        decreases c@.len() - i,
    {
        if c[i].ip == *ip {
            return Some(i);
        }
        i = i + 1;
    }
    None
}

/// Counts one more live connection of `a`'s address.
fn counter_increment(
    c: &mut Vec<IpCount>,
    ip: &String,
    Ghost(prev): Ghost<Seq<ActiveConn>>,
    Ghost(a): Ghost<ActiveConn>,
)
    requires
        counters_match(old(c)@, prev),
        a.client_ip@ == ip@,
        prev.len() < u64::MAX,
    ensures
        counters_match(final(c)@, prev.push(a)),
{
    let ghost next = prev.push(a);
    proof {
        lemma_count_le_len(prev, ip@);
        assert forall|x: Seq<char>| #[trigger] count_ip(next, x) == count_ip(prev, x) + (if x == ip@ { 1nat } else { 0nat }) by {
            lemma_count_push(prev, a, x);
        }
    }
    match find_counter(c, ip) {
        Some(k) => {
            let n = c[k].count;
            let ghost before = c@;
            c.set(k, IpCount { ip: ip.clone(), count: n + 1 });
            proof {
                assert forall|i: int, j: int| 0 <= i < j < c@.len() implies (#[trigger] c@[i]).ip@
                    != (#[trigger] c@[j]).ip@ by {
                    assert(before[i].ip@ != before[j].ip@);
                }
                assert forall|i: int| 0 <= i < c@.len() implies (#[trigger] c@[i]).count
                    == count_ip(next, c@[i].ip@) && c@[i].count > 0 by {
                    if i != k {
                        if i < k {
                            assert(before[i].ip@ != before[k as int].ip@);
                        } else {
                            assert(before[k as int].ip@ != before[i].ip@);
                        }
                    }
                }
                assert forall|j: int| 0 <= j < next.len() implies has_counter(
                    c@,
                    (#[trigger] next[j]).client_ip@,
                ) by {
                    if j < prev.len() {
                        assert(next[j] == prev[j]);
                        let i = choose|i: int|
                            0 <= i < before.len() && (#[trigger] before[i]).ip@
                                == prev[j].client_ip@;
                        assert(c@[i].ip@ == before[i].ip@);
                    } else {
                        assert(c@[k as int].ip@ == next[j].client_ip@);
                    }
                }
                assert(ips_unique_counts(c@));
                assert(counters_match(c@, next));
            }
        },
        None => {
            proof {
                assert forall|j: int| 0 <= j < prev.len() implies (#[trigger] prev[j]).client_ip@
                    != ip@ by {
                    assert(has_counter(c@, prev[j].client_ip@));
                }
                lemma_count_zero(prev, ip@);
            }
            let ghost before = c@;
            c.push(IpCount { ip: ip.clone(), count: 1 });
            proof {
                assert forall|i: int, j: int| 0 <= i < j < c@.len() implies (#[trigger] c@[i]).ip@
                    != (#[trigger] c@[j]).ip@ by {
                    if j < before.len() {
                        assert(before[i].ip@ != before[j].ip@);
                    } else {
                        assert(c@[i] == before[i]);
                    }
                }
                assert forall|i: int| 0 <= i < c@.len() implies (#[trigger] c@[i]).count
                    == count_ip(next, c@[i].ip@) && c@[i].count > 0 by {
                    if i < before.len() {
                        assert(c@[i] == before[i]);
                    }
                }
                assert forall|j: int| 0 <= j < next.len() implies has_counter(
                    c@,
                    (#[trigger] next[j]).client_ip@,
                ) by {
                    if j < prev.len() {
                        assert(next[j] == prev[j]);
                        let i = choose|i: int|
                            0 <= i < before.len() && (#[trigger] before[i]).ip@
                                == prev[j].client_ip@;
                        assert(c@[i] == before[i]);
                    } else {
                        assert(c@[before.len() as int].ip@ == next[j].client_ip@);
                    }
                }
                assert(ips_unique_counts(c@));
                assert(counters_match(c@, next));
            }
        },
    }
}

/// Counts one live connection fewer for the address of `prev[k]`, dropping the entry at zero.
fn counter_decrement(
    c: &mut Vec<IpCount>,
    ip: &String,
    Ghost(prev): Ghost<Seq<ActiveConn>>,
    Ghost(k): Ghost<int>,
)
    requires
        counters_match(old(c)@, prev),
        0 <= k < prev.len(),
        prev[k].client_ip@ == ip@,
    ensures
        counters_match(final(c)@, prev.remove(k)),
{
    let ghost next = prev.remove(k);
    proof {
        assert forall|x: Seq<char>| #[trigger] count_ip(next, x) + (if x == ip@ { 1nat } else { 0nat }) == count_ip(prev, x) by {
            lemma_count_remove(prev, k, x);
        }
        assert(has_counter(c@, prev[k].client_ip@));
    }
    let i = match find_counter(c, ip) {
        Some(i) => i,
        None => {
            proof {
                let i = choose|i: int| 0 <= i < c@.len() && (#[trigger] c@[i]).ip@ == ip@;
                assert(c@[i].ip@ != ip@);
            }
            return;
        },
    };
    let n = c[i].count;
    let ghost before = c@;
    if n == 1 {
        c.remove(i);
        proof {
            assert(count_ip(next, ip@) == 0);
            assert forall|a: int, b: int| 0 <= a < b < c@.len() implies (#[trigger] c@[a]).ip@
                != (#[trigger] c@[b]).ip@ by {
                let a2 = if a < i { a } else { a + 1 };
                let b2 = if b < i { b } else { b + 1 };
                assert(before[a2].ip@ != before[b2].ip@);
            }
            assert forall|a: int| 0 <= a < c@.len() implies (#[trigger] c@[a]).count == count_ip(
                next,
                c@[a].ip@,
            ) && c@[a].count > 0 by {
                let a2 = if a < i { a } else { a + 1 };
                assert(c@[a] == before[a2]);
                if a2 < i {
                    assert(before[a2].ip@ != before[i as int].ip@);
                } else {
                    assert(before[i as int].ip@ != before[a2].ip@);
                }
            }
            assert forall|j: int| 0 <= j < next.len() implies has_counter(
                c@,
                (#[trigger] next[j]).client_ip@,
            ) by {
                if next[j].client_ip@ == ip@ {
                    lemma_count_pos(next, j);
                }
                let j2 = if j < k { j } else { j + 1 };
                assert(next[j] == prev[j2]);
                assert(has_counter(before, prev[j2].client_ip@));
                let a = choose|a: int|
                    0 <= a < before.len() && (#[trigger] before[a]).ip@ == prev[j2].client_ip@;
                assert(a != i);
                if a < i {
                    assert(c@[a] == before[a]);
                } else {
                    assert(c@[a - 1] == before[a]);
                }
            }
        }
    } else {
        c.set(i, IpCount { ip: ip.clone(), count: n - 1 });
        proof {
            assert forall|a: int, b: int| 0 <= a < b < c@.len() implies (#[trigger] c@[a]).ip@
                != (#[trigger] c@[b]).ip@ by {
                assert(before[a].ip@ != before[b].ip@);
            }
            assert forall|a: int| 0 <= a < c@.len() implies (#[trigger] c@[a]).count == count_ip(
                next,
                c@[a].ip@,
            ) && c@[a].count > 0 by {
                if a != i {
                    if a < i {
                        assert(before[a].ip@ != before[i as int].ip@);
                    } else {
                        assert(before[i as int].ip@ != before[a].ip@);
                    }
                }
            }
            assert forall|j: int| 0 <= j < next.len() implies has_counter(
                c@,
                (#[trigger] next[j]).client_ip@,
            ) by {
                let j2 = if j < k { j } else { j + 1 };
                assert(next[j] == prev[j2]);
                assert(has_counter(before, prev[j2].client_ip@));
                let a = choose|a: int|
                    0 <= a < before.len() && (#[trigger] before[a]).ip@ == prev[j2].client_ip@;
                assert(c@[a].ip@ == before[a].ip@);
            }
        }
    }
}

/// The log after appending: only the newest `MAX_HISTORY` entries are kept.
pub open spec fn keep_recent(h: Seq<ConnectionLog>) -> Seq<ConnectionLog> {
    if h.len() > MAX_HISTORY {
        h.subrange(h.len() - MAX_HISTORY, h.len() as int)
    } else {
        h
    }
}

/// Drops the oldest log entries beyond the retention cap.
pub fn trim_history(history: &mut Vec<ConnectionLog>)
    ensures
        final(history)@ == keep_recent(old(history)@),
        final(history)@.len() <= MAX_HISTORY,
{
    if history.len() > MAX_HISTORY {
        let over = history.len() - MAX_HISTORY;
        let tail = history.split_off(over);
        *history = tail;
    }
}

/// The record of a connection admitted now.
pub open spec fn admitted_record(
    id: u64,
    rule_id: u64,
    ip: String,
    port: Option<u16>,
    stamp: String,
) -> ActiveConn {
    ActiveConn {
        conn_id: id,
        rule_id,
        client_ip: ip,
        listen_port: port,
        started_at: stamp,
        bytes_transferred: 0,
        last_update: stamp,
    }
}

/// The log entry of a finished connection.
pub open spec fn finished_record(
    a: ActiveConn,
    bytes_up: u64,
    bytes_down: u64,
    reason: Option<String>,
    stamp: String,
) -> ConnectionLog {
    ConnectionLog {
        id: a.conn_id,
        rule_id: a.rule_id,
        client_ip: a.client_ip,
        listen_port: a.listen_port,
        started_at: a.started_at,
        ended_at: Some(stamp),
        bytes_up,
        bytes_down,
        blocked: false,
        reason,
    }
}

/// The log entry of a refused connection.
pub open spec fn blocked_record(
    id: u64,
    rule_id: u64,
    port: Option<u16>,
    ip: String,
    reason: String,
    stamp: String,
) -> ConnectionLog {
    ConnectionLog {
        id,
        rule_id,
        client_ip: ip,
        listen_port: port,
        started_at: stamp,
        ended_at: Some(stamp),
        bytes_up: 0,
        bytes_down: 0,
        blocked: true,
        reason: Some(reason),
    }
}

/// Whether a connection with id `id` is live.
pub open spec fn is_active_id(active: Seq<ActiveConn>, id: u64) -> bool {
    exists|k: int| 0 <= k < active.len() && (#[trigger] active[k]).conn_id == id
}

/// Position of the live connection `id`.
pub open spec fn active_index(active: Seq<ActiveConn>, id: u64) -> int {
    choose|k: int| 0 <= k < active.len() && (#[trigger] active[k]).conn_id == id
}

impl ProxyState {
    /// A state with no rules, empty lists, default limits and an empty log.
    pub fn new() -> (r: Self)
        ensures
            r.wf(),
            r.rules@.len() == 0,
            r.active@.len() == 0,
            r.history@.len() == 0,
            r.blocklist@.len() == 0,
            r.port_blocklist@.len() == 0,
            r.allowlist@.len() == 0,
            r.allowlist_ports@.len() == 0,
            !r.allowlist_enabled,
            r.geo_blocklist@.len() == 0,
            r.geo_port_blocklist@.len() == 0,
            r.rate_limit.max_new_connections_per_minute == 120,
            r.rate_limit.max_concurrent_connections_per_ip == 50,
            r.rate_limit.max_concurrent_total == 2000,
            r.next_rule_id == 1,
            r.next_conn_id == 1,
            forall|x: Seq<char>| #[trigger] r.window(x) == Seq::<u64>::empty(),
    {
        ProxyState {
            rules: Vec::new(),
            blocklist: Vec::new(),
            port_blocklist: Vec::new(),
            allowlist: Vec::new(),
            allowlist_ports: Vec::new(),
            allowlist_enabled: false,
            geo_blocklist: Vec::new(),
            geo_port_blocklist: Vec::new(),
            history: Vec::new(),
            rate_limit: RateLimitConfig::default(),
            active: Vec::new(),
            active_by_ip: Vec::new(),
            rate_windows: Vec::new(),
            next_rule_id: 1,
            next_conn_id: 1,
        }
    }

    /// Admits `ip` on `port` for rule `rule_id` at `now` (milliseconds), recording the
    /// connection with `stamp` as its start; on refusal only the rate window may change.
    pub fn register_connection(
        &mut self,
        rule_id: u64,
        ip: &String,
        port: Option<u16>,
        country: &Option<String>,
        now: u64,
        stamp: &String,
    ) -> (r: Result<u64, Rejection>)
        requires
            old(self).wf(),
            old(self).next_conn_id < u64::MAX,
        ensures
            final(self).wf(),
            final(self).same_config(old(self)),
            old(self).windows_updated(
                final(self),
                ip@,
                old(self).window_after(ip@, port, *country, now),
            ),
            match old(self).verdict(ip@, port, *country, now) {
                Some(x) => {
                    &&& r == Err::<u64, Rejection>(x)
                    &&& final(self).active@ == old(self).active@
                    &&& final(self).active_by_ip == old(self).active_by_ip
                    &&& final(self).next_conn_id == old(self).next_conn_id
                },
                None => {
                    &&& r == Ok::<u64, Rejection>(old(self).next_conn_id)
                    &&& final(self).next_conn_id == old(self).next_conn_id + 1
                    &&& final(self).active@ == old(self).active@.push(
                        admitted_record(old(self).next_conn_id, rule_id, *ip, port, *stamp),
                    )
                },
            },
    {
        match self.check_allow(ip, port, country, now) {
            Ok(()) => {},
            Err(x) => return Err(x),
        }
        let id = self.next_conn_id;
        let ghost prev = self.active@;
        let ghost mid_windows = self.rate_windows;
        let ghost mid = *self;
        assert(old(self).windows_updated(&mid, ip@, old(self).window_after(ip@, port, *country, now)));
        let a = ActiveConn {
            conn_id: id,
            rule_id,
            client_ip: ip.clone(),
            listen_port: port,
            started_at: stamp.clone(),
            bytes_transferred: 0,
            last_update: stamp.clone(),
        };
        proof {
            if prev.len() > 0 {
                lemma_ids_bound(prev, prev.len() - 1);
            }
        }
        self.active.push(a);
        counter_increment(&mut self.active_by_ip, ip, Ghost(prev), Ghost(a));
        self.next_conn_id = id + 1;
        proof {
            assert forall|x: Seq<char>| #[trigger] self.window(x) == mid.window(x) by {}
            assert(old(self).windows_updated(self, ip@, old(self).window_after(ip@, port, *country, now)));
        }
        Ok(id)
    }

    fn find_active(&self, conn_id: u64) -> (r: Option<usize>)
        ensures
            match r {
                Some(k) => k < self.active@.len() && self.active@[k as int].conn_id == conn_id,
                None => !is_active_id(self.active@, conn_id),
            },
    {
        let mut i: usize = 0;
        while i < self.active.len()
            invariant
                i <= self.active@.len(),
                forall|k: int| 0 <= k < i ==> (#[trigger] self.active@[k]).conn_id != conn_id,
            decreases self.active@.len() - i,
        {
            if self.active[i].conn_id == conn_id {
                return Some(i);
            }
            i = i + 1;
        }
        None
    }

    /// Finishes the live connection `conn_id`: it leaves the active set and its log entry,
    /// stamped `now`, is appended. Unknown ids change nothing.
    pub fn record_connection_end(
        &mut self,
        conn_id: u64,
        bytes_up: u64,
        bytes_down: u64,
        reason: Option<String>,
        now: &String,
    )
        requires
            old(self).wf(),
        ensures
            final(self).wf(),
            final(self).same_policy(old(self)),
            final(self).rate_windows == old(self).rate_windows,
            final(self).next_conn_id == old(self).next_conn_id,
            if is_active_id(old(self).active@, conn_id) {
                let k = active_index(old(self).active@, conn_id);
                &&& final(self).active@ == old(self).active@.remove(k)
                &&& final(self).history@ == keep_recent(
                    old(self).history@.push(
                        finished_record(old(self).active@[k], bytes_up, bytes_down, reason, *now),
                    ),
                )
            } else {
                &&& final(self).active@ == old(self).active@
                &&& final(self).history@ == old(self).history@
            },
    {
        let k = match self.find_active(conn_id) {
            Some(k) => k,
            None => return,
        };
        proof {
            let c = active_index(self.active@, conn_id);
            if c != k {
                if c < k {
                    assert(self.active@[c].conn_id < self.active@[k as int].conn_id);
                } else {
                    assert(self.active@[k as int].conn_id < self.active@[c].conn_id);
                }
            }
        }
        let ghost prev = self.active@;
        let a = self.active.remove(k);
        counter_decrement(&mut self.active_by_ip, &a.client_ip, Ghost(prev), Ghost(k as int));
        let log = ConnectionLog {
            id: conn_id,
            rule_id: a.rule_id,
            client_ip: a.client_ip,
            listen_port: a.listen_port,
            started_at: a.started_at,
            ended_at: Some(now.clone()),
            bytes_up,
            bytes_down,
            blocked: false,
            reason,
        };
        self.history.push(log);
        trim_history(&mut self.history);
        proof {
            assert forall|i: int, j: int| 0 <= i < j < self.active@.len() implies (#[trigger] self.active@[i]).conn_id
                < (#[trigger] self.active@[j]).conn_id by {
                let i2 = if i < k { i } else { i + 1 };
                let j2 = if j < k { j } else { j + 1 };
                assert(prev[i2].conn_id < prev[j2].conn_id);
            }
            assert forall|i: int| 0 <= i < self.active@.len() implies (#[trigger] self.active@[i]).conn_id
                < self.next_conn_id by {
                let i2 = if i < k { i } else { i + 1 };
                assert(prev[i2].conn_id < self.next_conn_id);
            }
        }
    }

    /// Logs a refused connection of `ip` on `port`, stamped `now`, under a fresh id.
    pub fn record_blocked(
        &mut self,
        rule_id: u64,
        port: Option<u16>,
        ip: String,
        reason: String,
        now: &String,
    )
        requires
            old(self).wf(),
            old(self).next_conn_id < u64::MAX,
        ensures
            final(self).wf(),
            final(self).same_policy(old(self)),
            final(self).rate_windows == old(self).rate_windows,
            final(self).active == old(self).active,
            final(self).next_conn_id == old(self).next_conn_id + 1,
            final(self).history@ == keep_recent(
                old(self).history@.push(
                    blocked_record(old(self).next_conn_id, rule_id, port, ip, reason, *now),
                ),
            ),
    {
        let id = self.next_conn_id;
        self.next_conn_id = id + 1;
        let log = ConnectionLog {
            id,
            rule_id,
            client_ip: ip,
            listen_port: port,
            started_at: now.clone(),
            ended_at: Some(now.clone()),
            bytes_up: 0,
            bytes_down: 0,
            blocked: true,
            reason: Some(reason),
        };
        self.history.push(log);
        trim_history(&mut self.history);
    }

    /// Publishes the running byte count of the live connection `conn_id`.
    pub fn update_connection_bytes(&mut self, conn_id: u64, bytes_transferred: u64, now: &String)
        requires
            old(self).wf(),
        ensures
            final(self).wf(),
            final(self).same_config(old(self)),
            final(self).rate_windows == old(self).rate_windows,
            final(self).next_conn_id == old(self).next_conn_id,
            if is_active_id(old(self).active@, conn_id) {
                let k = active_index(old(self).active@, conn_id);
                final(self).active@ == old(self).active@.update(
                    k,
                    ActiveConn {
                        bytes_transferred,
                        last_update: *now,
                        ..old(self).active@[k]
                    },
                )
            } else {
                final(self).active@ == old(self).active@
            },
    {
        let k = match self.find_active(conn_id) {
            Some(k) => k,
            None => return,
        };
        proof {
            let c = active_index(self.active@, conn_id);
            if c != k {
                if c < k {
                    assert(self.active@[c].conn_id < self.active@[k as int].conn_id);
                } else {
                    assert(self.active@[k as int].conn_id < self.active@[c].conn_id);
                }
            }
        }
        let ghost prev = self.active@;
        let mut a = self.active[k].clone();
        a.bytes_transferred = bytes_transferred;
        a.last_update = now.clone();
        self.active.set(k, a);
        proof {
            assert forall|x: Seq<char>| #[trigger] count_ip(self.active@, x) == count_ip(prev, x) by {
                lemma_count_remove(prev, k as int, x);
                lemma_count_remove(self.active@, k as int, x);
                assert(prev.remove(k as int) == self.active@.remove(k as int));
            }
            assert forall|j: int| 0 <= j < self.active@.len() implies has_counter(
                self.active_by_ip@,
                (#[trigger] self.active@[j]).client_ip@,
            ) by {
                assert(self.active@[j].client_ip@ == prev[j].client_ip@);
            }
        }
    }
}

/// Whether a connection of rule `rule_id` is live.
pub open spec fn has_rule_conn(active: Seq<ActiveConn>, rule_id: u64) -> bool {
    exists|k: int| 0 <= k < active.len() && (#[trigger] active[k]).rule_id == rule_id
}

/// `c` is one of the records of `s`.
pub open spec fn in_active(s: Seq<ActiveConn>, c: ActiveConn) -> bool {
    exists|i: int| 0 <= i < s.len() && s[i] == c
}

/// Every record of `a` is one of `b`.
pub open spec fn records_within(a: Seq<ActiveConn>, b: Seq<ActiveConn>) -> bool {
    forall|j: int| 0 <= j < a.len() ==> in_active(b, #[trigger] a[j])
}

/// Every record of `a` that belongs to another rule than `rule_id` is still in `b`.
pub open spec fn others_kept(a: Seq<ActiveConn>, b: Seq<ActiveConn>, rule_id: u64) -> bool {
    forall|i: int| 0 <= i < a.len() && (#[trigger] a[i]).rule_id != rule_id ==> in_active(b, a[i])
}

/// The live connections of rule `rule_id`, in order.
pub open spec fn rule_conns(active: Seq<ActiveConn>, rule_id: u64) -> Seq<ActiveConn>
    decreases active.len(),
{
    if active.len() == 0 {
        Seq::empty()
    } else if active[0].rule_id == rule_id {
        seq![active[0]] + rule_conns(active.drop_first(), rule_id)
    } else {
        rule_conns(active.drop_first(), rule_id)
    }
}

/// The log after finishing the connections of `ended` in order, with no bytes counted,
/// `reason`, and `now` as end time.
pub open spec fn log_after_ending(
    h: Seq<ConnectionLog>,
    ended: Seq<ActiveConn>,
    reason: String,
    now: String,
) -> Seq<ConnectionLog>
    decreases ended.len(),
{
    if ended.len() == 0 {
        h
    } else {
        keep_recent(
            log_after_ending(h, ended.drop_last(), reason, now).push(
                finished_record(ended.last(), 0, 0, Some(reason), now),
            ),
        )
    }
}

proof fn lemma_rule_conns_first(a: Seq<ActiveConn>, rule_id: u64, k: int)
    requires
        0 <= k < a.len(),
        a[k].rule_id == rule_id,
        forall|j: int| 0 <= j < k ==> (#[trigger] a[j]).rule_id != rule_id,
    ensures
        rule_conns(a, rule_id) == seq![a[k]] + rule_conns(a.remove(k), rule_id),
    decreases k,
{
    if k == 0 {
        assert(a.remove(0) == a.drop_first());
    } else {
        let d = a.drop_first();
        assert forall|j: int| 0 <= j < k - 1 implies (#[trigger] d[j]).rule_id != rule_id by {
            assert(d[j] == a[j + 1]);
        }
        lemma_rule_conns_first(d, rule_id, k - 1);
        assert(a.remove(k)[0] == a[0]);
        assert(a.remove(k).drop_first() == d.remove(k - 1));
        assert(a[0].rule_id != rule_id);
    }
}

proof fn lemma_rule_conns_none(a: Seq<ActiveConn>, rule_id: u64)
    requires
        !has_rule_conn(a, rule_id),
    ensures
        rule_conns(a, rule_id) == Seq::<ActiveConn>::empty(),
    decreases a.len(),
{
    if a.len() > 0 {
        assert(a[0].rule_id != rule_id);
        assert(!has_rule_conn(a.drop_first(), rule_id)) by {
            if has_rule_conn(a.drop_first(), rule_id) {
                let k = choose|k: int| 0 <= k < a.drop_first().len() && (#[trigger] a.drop_first()[k]).rule_id == rule_id;
                assert(a[k + 1].rule_id == rule_id);
            }
        }
        lemma_rule_conns_none(a.drop_first(), rule_id);
    }
}

proof fn lemma_within_refl(a: Seq<ActiveConn>)
    ensures
        records_within(a, a),
        forall|r: u64| #[trigger] others_kept(a, a, r),
{
    assert forall|j: int| 0 <= j < a.len() implies in_active(a, #[trigger] a[j]) by {
        assert(a[j] == a[j]);
    }
    assert forall|r: u64| #[trigger] others_kept(a, a, r) by {
        assert forall|i: int| 0 <= i < a.len() && (#[trigger] a[i]).rule_id != r implies in_active(a, a[i]) by {
            assert(a[i] == a[i]);
        }
    }
}

proof fn lemma_remove_rule_conn(start: Seq<ActiveConn>, before: Seq<ActiveConn>, k: int, rule_id: u64)
    requires
        0 <= k < before.len(),
        before[k].rule_id == rule_id,
        records_within(before, start),
        others_kept(start, before, rule_id),
    ensures
        records_within(before.remove(k), start),
        others_kept(start, before.remove(k), rule_id),
{
    let after = before.remove(k);
    assert forall|j: int| 0 <= j < after.len() implies in_active(start, #[trigger] after[j]) by {
        let j2 = if j < k { j } else { j + 1 };
        assert(after[j] == before[j2]);
        assert(in_active(start, before[j2]));
    }
    assert forall|i: int| 0 <= i < start.len() && (#[trigger] start[i]).rule_id != rule_id implies in_active(after, start[i]) by {
        assert(in_active(before, start[i]));
        let j = choose|j: int| 0 <= j < before.len() && before[j] == start[i];
        assert(j != k);
        let j3 = if j < k { j } else { j - 1 };
        assert(after[j3] == before[j]);
    }
}

impl ProxyState {
    fn find_rule_conn(&self, rule_id: u64) -> (r: Option<usize>)
        ensures
            match r {
                Some(k) => k < self.active@.len() && self.active@[k as int].rule_id == rule_id
                    && forall|j: int| 0 <= j < k ==> (#[trigger] self.active@[j]).rule_id != rule_id,
                None => !has_rule_conn(self.active@, rule_id),
            },
    {
        let mut i: usize = 0;
        while i < self.active.len()
            invariant
                i <= self.active@.len(),
                forall|k: int| 0 <= k < i ==> (#[trigger] self.active@[k]).rule_id != rule_id,
            decreases self.active@.len() - i,
        {
            if self.active[i].rule_id == rule_id {
                return Some(i);
            }
            i = i + 1;
        }
        None
    }

    /// Finishes every live connection of rule `rule_id` with `reason`, stamped `now`, as when
    /// the rule's listeners are torn down: each is logged, in order, with no bytes counted.
    /// Afterwards no live connection belongs to the rule, and the live connections of other
    /// rules are untouched.
    pub fn end_rule_connections(&mut self, rule_id: u64, reason: &String, now: &String)
        requires
            old(self).wf(),
        ensures
            final(self).wf(),
            final(self).same_policy(old(self)),
            final(self).rate_windows == old(self).rate_windows,
            final(self).next_conn_id == old(self).next_conn_id,
            !has_rule_conn(final(self).active@, rule_id),
            final(self).history@ == log_after_ending(
                old(self).history@,
                rule_conns(old(self).active@, rule_id),
                *reason,
                *now,
            ),
            records_within(final(self).active@, old(self).active@),
            others_kept(old(self).active@, final(self).active@, rule_id),
    {
        let ghost start = self.active@;
        let ghost start_log = self.history@;
        let ghost mut ended: Seq<ActiveConn> = Seq::empty();
        proof {
            lemma_within_refl(start);
            assert(ended + rule_conns(start, rule_id) =~= rule_conns(start, rule_id));
        }
        let mut next = self.find_rule_conn(rule_id);
        while next.is_some()
            invariant
                match next {
                    Some(k) => k < self.active@.len() && self.active@[k as int].rule_id == rule_id
                        && forall|j: int| 0 <= j < k ==> (#[trigger] self.active@[j]).rule_id != rule_id,
                    None => !has_rule_conn(self.active@, rule_id),
                },
                ended + rule_conns(self.active@, rule_id) == rule_conns(start, rule_id),
                self.history@ == log_after_ending(start_log, ended, *reason, *now),
                self.wf(),
                self.same_policy(old(self)),
                self.rate_windows == old(self).rate_windows,
                self.next_conn_id == old(self).next_conn_id,
                start == old(self).active@,
                records_within(self.active@, start),
                others_kept(start, self.active@, rule_id),
            decreases self.active@.len(),
        {
            let k = match next {
                Some(k) => k,
                None => 0,
            };
            let ghost before = self.active@;
            let id = self.active[k].conn_id;
            proof {
                assert(is_active_id(before, id));
                let c = active_index(before, id);
                if c != k {
                    if c < k {
                        assert(before[c].conn_id < before[k as int].conn_id);
                    } else {
                        assert(before[k as int].conn_id < before[c].conn_id);
                    }
                }
                lemma_remove_rule_conn(start, before, k as int, rule_id);
                lemma_rule_conns_first(before, rule_id, k as int);
            }
            let ghost ended_before = ended;
            self.record_connection_end(id, 0, 0, Some(reason.clone()), now);
            proof {
                ended = ended.push(before[k as int]);
                assert(ended.drop_last() == ended_before);
                assert(ended + rule_conns(self.active@, rule_id) =~= ended_before + rule_conns(before, rule_id));
            }
            next = self.find_rule_conn(rule_id);
        }
        proof {
            lemma_rule_conns_none(self.active@, rule_id);
            assert(ended + rule_conns(self.active@, rule_id) =~= ended);
        }
    }
}

/// Sum over the counter entries of the live connections of each entry's address.
pub open spec fn sum_live(c: Seq<IpCount>, a: Seq<ActiveConn>) -> nat
    decreases c.len(),
{
    if c.len() == 0 {
        0
    } else {
        sum_live(c.drop_last(), a) + count_ip(a, c.last().ip@)
    }
}

proof fn lemma_sum_counts_live(c: Seq<IpCount>, a: Seq<ActiveConn>)
    requires
        forall|i: int| 0 <= i < c.len() ==> (#[trigger] c[i]).count == count_ip(a, c[i].ip@),
    ensures
        sum_counts(c) == sum_live(c, a),
    decreases c.len(),
{
    if c.len() > 0 {
        let d = c.drop_last();
        assert forall|i: int| 0 <= i < d.len() implies (#[trigger] d[i]).count == count_ip(a, d[i].ip@) by {
            assert(d[i] == c[i]);
        }
        lemma_sum_counts_live(d, a);
    }
}

proof fn lemma_sum_live_empty(c: Seq<IpCount>)
    ensures
        sum_live(c, Seq::empty()) == 0,
    decreases c.len(),
{
    if c.len() > 0 {
        lemma_sum_live_empty(c.drop_last());
    }
}

proof fn lemma_sum_live_push(c: Seq<IpCount>, a: Seq<ActiveConn>, x: ActiveConn)
    requires
        ips_unique_counts(c),
    ensures
        sum_live(c, a.push(x)) == sum_live(c, a) + if has_counter(c, x.client_ip@) {
            1nat
        } else {
            0nat
        },
    decreases c.len(),
{
    if c.len() > 0 {
        let d = c.drop_last();
        assert(ips_unique_counts(d)) by {
            assert forall|i: int, j: int| 0 <= i < j < d.len() implies (#[trigger] d[i]).ip@
                != (#[trigger] d[j]).ip@ by {
                assert(c[i].ip@ != c[j].ip@);
            }
        }
        lemma_sum_live_push(d, a, x);
        lemma_count_push(a, x, c.last().ip@);
        if has_counter(d, x.client_ip@) {
            let i = choose|i: int| 0 <= i < d.len() && (#[trigger] d[i]).ip@ == x.client_ip@;
            assert(c[i].ip@ != c[c.len() - 1].ip@);
            assert(has_counter(c, x.client_ip@));
        } else if c.last().ip@ == x.client_ip@ {
            assert(c[c.len() - 1].ip@ == x.client_ip@);
            assert(has_counter(c, x.client_ip@));
        } else {
            assert forall|i: int| 0 <= i < c.len() implies (#[trigger] c[i]).ip@ != x.client_ip@ by {
                if i < d.len() {
                    assert(d[i] == c[i]);
                }
            }
        }
    }
}

proof fn lemma_sum_live_all(c: Seq<IpCount>, a: Seq<ActiveConn>)
    requires
        ips_unique_counts(c),
        forall|j: int| 0 <= j < a.len() ==> has_counter(c, (#[trigger] a[j]).client_ip@),
    ensures
        sum_live(c, a) == a.len(),
    decreases a.len(),
{
    if a.len() == 0 {
        assert(a == Seq::<ActiveConn>::empty());
        lemma_sum_live_empty(c);
    } else {
        let b = a.drop_last();
        assert forall|j: int| 0 <= j < b.len() implies has_counter(c, (#[trigger] b[j]).client_ip@) by {
            assert(b[j] == a[j]);
        }
        lemma_sum_live_all(c, b);
        assert(b.push(a.last()) == a);
        assert(has_counter(c, a[a.len() - 1].client_ip@));
        lemma_sum_live_push(c, b, a.last());
    }
}

/// The per-address counters add up to the number of live connections, and every stored
/// counter is positive.
pub proof fn lemma_counter_consistency(s: &ProxyState)
    requires
        s.wf(),
    ensures
        sum_counts(s.active_by_ip@) == s.active@.len(),
        forall|i: int| 0 <= i < s.active_by_ip@.len() ==> (#[trigger] s.active_by_ip@[i]).count > 0,
{
    lemma_sum_counts_live(s.active_by_ip@, s.active@);
    lemma_sum_live_all(s.active_by_ip@, s.active@);
}

} // verus!
