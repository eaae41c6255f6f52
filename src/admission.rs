//! The admission decision taken when a connection or a new UDP client arrives.
use vstd::prelude::*;
use crate::state::{
    contains_port, contains_port_country, contains_port_ip, contains_str,
    count_ip, has_counter, has_port, has_port_country, has_port_ip, has_str, ips_unique_windows, window_of,
    ActiveConn, ProxyState, RateWindow, RATE_WINDOW_MS,
};
use crate::text::{push_decimal, push_str, decimal, string_from_chars};

verus! {

/// Why a connection was refused.
#[derive(Clone, Debug)]
pub enum Rejection {
    NotInAllowlist,
    NotInPortAllowlist { port: u16 },
    GeoBlockedPort { port: u16, country: String },
    GeoBlocked { country: String },
    Blocked,
    BlockedPort { port: u16 },
    TooManyTotal,
    TooManyForIp,
    RateLimited,
}

impl Rejection {
    pub open spec fn text(&self) -> Seq<char> {
        match *self {
            Rejection::NotInAllowlist => "Not in allowlist"@,
            Rejection::NotInPortAllowlist { port } => "Not in allowlist for port "@ + decimal(
                port as nat,
            ),
            Rejection::GeoBlockedPort { port, country } => "Geo blocked for port "@ + decimal(
                port as nat,
            ) + ": "@ + country@,
            Rejection::GeoBlocked { country } => "Geo blocked: "@ + country@,
            Rejection::Blocked => "Blocked by rule"@,
            Rejection::BlockedPort { port } => "Blocked for port "@ + decimal(port as nat),
            Rejection::TooManyTotal => "Too many total connections"@,
            Rejection::TooManyForIp => "Too many active connections for IP"@,
            Rejection::RateLimited => "Rate limit exceeded"@,
        }
    }

    /// Refusals caused by load rather than by policy.
    pub open spec fn is_ddos_spec(&self) -> bool {
        match *self {
            Rejection::TooManyTotal | Rejection::TooManyForIp | Rejection::RateLimited => true,
            _ => false,
        }
    }

    /// The reason recorded in the connection log.
    pub fn message(&self) -> (r: String)
        ensures
            r@ == self.text(),
    {
        let mut out: Vec<char> = Vec::new();
        match self {
            Rejection::NotInAllowlist => push_str(&mut out, "Not in allowlist"),
            Rejection::NotInPortAllowlist { port } => {
                push_str(&mut out, "Not in allowlist for port ");
                push_decimal(&mut out, *port as u64);
            },
            Rejection::GeoBlockedPort { port, country } => {
                push_str(&mut out, "Geo blocked for port ");
                push_decimal(&mut out, *port as u64);
                push_str(&mut out, ": ");
                push_str(&mut out, country.as_str());
            },
            Rejection::GeoBlocked { country } => {
                push_str(&mut out, "Geo blocked: ");
                push_str(&mut out, country.as_str());
            },
            Rejection::Blocked => push_str(&mut out, "Blocked by rule"),
            Rejection::BlockedPort { port } => {
                push_str(&mut out, "Blocked for port ");
                push_decimal(&mut out, *port as u64);
            },
            Rejection::TooManyTotal => push_str(&mut out, "Too many total connections"),
            Rejection::TooManyForIp => push_str(&mut out, "Too many active connections for IP"),
            Rejection::RateLimited => push_str(&mut out, "Rate limit exceeded"),
        }
        string_from_chars(&out)
    }

    /// Whether this refusal counts towards the DDoS report.
    pub fn is_ddos(&self) -> (r: bool)
        ensures
            r == self.is_ddos_spec(),
    {
        match self {
            Rejection::TooManyTotal | Rejection::TooManyForIp | Rejection::RateLimited => true,
            _ => false,
        }
    }
}

/// An admission time older than the rate window.
pub open spec fn is_stale(t: u64, now: u64) -> bool {
    now > t && now - t > RATE_WINDOW_MS
}

/// The window without its stale admission times, the others kept in order.
pub open spec fn prune(w: Seq<u64>, now: u64) -> Seq<u64>
    decreases w.len(),
{
    if w.len() == 0 {
        w
    } else if is_stale(w[0], now) {
        prune(w.drop_first(), now)
    } else {
        seq![w[0]] + prune(w.drop_first(), now)
    }
}

impl ProxyState {
    /// Steps of the policy before the rate window, in their order; the first that refuses
    /// decides.
    pub open spec fn policy_verdict(
        &self,
        ip: Seq<char>,
        port: Option<u16>,
        country: Option<String>,
    ) -> Option<Rejection> {
        if self.allowlist_enabled && !has_str(self.allowlist@, ip) {
            Some(Rejection::NotInAllowlist)
        } else if port is Some && has_port(self.allowlist_ports@, port->0) && !has_port_ip(
            self.allowlist_ports@,
            port->0,
            ip,
        ) {
            Some(Rejection::NotInPortAllowlist { port: port->0 })
        } else if country is Some && port is Some && has_port_country(
            self.geo_port_blocklist@,
            port->0,
            country->0@,
        ) {
            Some(Rejection::GeoBlockedPort { port: port->0, country: country->0 })
        } else if country is Some && has_str(self.geo_blocklist@, country->0@) {
            Some(Rejection::GeoBlocked { country: country->0 })
        } else if has_str(self.blocklist@, ip) {
            Some(Rejection::Blocked)
        } else if port is Some && has_port_ip(self.port_blocklist@, port->0, ip) {
            Some(Rejection::BlockedPort { port: port->0 })
        } else if self.active@.len() >= self.rate_limit.max_concurrent_total {
            Some(Rejection::TooManyTotal)
        } else if count_ip(self.active@, ip) >= self.rate_limit.max_concurrent_connections_per_ip {
            Some(Rejection::TooManyForIp)
        } else {
            None
        }
    }

    /// The full admission decision at time `now` (milliseconds).
    pub open spec fn verdict(
        &self,
        ip: Seq<char>,
        port: Option<u16>,
        country: Option<String>,
        now: u64,
    ) -> Option<Rejection> {
        match self.policy_verdict(ip, port, country) {
            Some(r) => Some(r),
            None => if prune(self.window(ip), now).len()
                >= self.rate_limit.max_new_connections_per_minute {
                Some(Rejection::RateLimited)
            } else {
                None
            },
        }
    }

    /// The rate window of `ip` after an admission attempt at `now`.
    pub open spec fn window_after(
        &self,
        ip: Seq<char>,
        port: Option<u16>,
        country: Option<String>,
        now: u64,
    ) -> Seq<u64> {
        if self.policy_verdict(ip, port, country) is Some {
            self.window(ip)
        } else if self.verdict(ip, port, country, now) is Some {
            prune(self.window(ip), now)
        } else {
            prune(self.window(ip), now).push(now)
        }
    }

    /// Everything but the live connections and the rate windows is equal.
    pub open spec fn same_config(&self, o: &Self) -> bool {
        &&& self.same_policy(o)
        &&& self.history == o.history
    }

    /// Rules and policy are equal.
    pub open spec fn same_policy(&self, o: &Self) -> bool {
        &&& self.rules == o.rules
        &&& self.blocklist == o.blocklist
        &&& self.port_blocklist == o.port_blocklist
        &&& self.allowlist == o.allowlist
        &&& self.allowlist_ports == o.allowlist_ports
        &&& self.allowlist_enabled == o.allowlist_enabled
        &&& self.geo_blocklist == o.geo_blocklist
        &&& self.geo_port_blocklist == o.geo_port_blocklist
        &&& self.rate_limit == o.rate_limit
        &&& self.next_rule_id == o.next_rule_id
    }

    /// The rate windows of `o` are those of `self` with the window of `ip` replaced by `w`.
    pub open spec fn windows_updated(&self, o: &Self, ip: Seq<char>, w: Seq<u64>) -> bool {
        &&& o.window(ip) == w
        &&& forall|x: Seq<char>| x != ip ==> #[trigger] o.window(x) == self.window(x)
    }
}

pub proof fn lemma_window_at(w: Seq<RateWindow>, k: int, ip: Seq<char>)
    requires
        ips_unique_windows(w),
        0 <= k < w.len(),
        w[k].ip@ == ip,
    ensures
        window_of(w, ip) == w[k].stamps@,
{
    let i = choose|i: int| 0 <= i < w.len() && (#[trigger] w[i]).ip@ == ip;
    if i != k {
        if i < k {
            assert(w[i].ip@ != w[k].ip@);
        } else {
            assert(w[k].ip@ != w[i].ip@);
        }
    }
}

proof fn lemma_window_unique_update(w: Seq<RateWindow>, k: int, nw: RateWindow)
    requires
        ips_unique_windows(w),
        0 <= k < w.len(),
        nw.ip@ == w[k].ip@,
    ensures
        ips_unique_windows(w.update(k, nw)),
{
    let u = w.update(k, nw);
    assert forall|i: int, j: int| 0 <= i < j < u.len() implies (#[trigger] u[i]).ip@
        != (#[trigger] u[j]).ip@ by {
        assert(w[i].ip@ != w[j].ip@);
    }
}

proof fn lemma_window_update(w: Seq<RateWindow>, k: int, nw: RateWindow, x: Seq<char>)
    requires
        ips_unique_windows(w),
        0 <= k < w.len(),
        nw.ip@ == w[k].ip@,
        x != nw.ip@,
    ensures
        ips_unique_windows(w.update(k, nw)),
        window_of(w.update(k, nw), x) == window_of(w, x),
{
    let u = w.update(k, nw);
    assert(ips_unique_windows(u)) by {
        assert forall|i: int, j: int| 0 <= i < j < u.len() implies (#[trigger] u[i]).ip@
            != (#[trigger] u[j]).ip@ by {
            assert(w[i].ip@ != w[j].ip@);
        }
    }
    if exists|i: int| 0 <= i < w.len() && (#[trigger] w[i]).ip@ == x {
        let i = choose|i: int| 0 <= i < w.len() && (#[trigger] w[i]).ip@ == x;
        assert(u[i] == w[i]);
        lemma_window_at(w, i, x);
        lemma_window_at(u, i, x);
    } else {
        assert forall|i: int| 0 <= i < u.len() implies (#[trigger] u[i]).ip@ != x by {
            if i != k {
                assert(u[i] == w[i]);
            }
        }
    }
}

proof fn lemma_window_push(w: Seq<RateWindow>, nw: RateWindow, x: Seq<char>)
    requires
        ips_unique_windows(w),
        forall|i: int| 0 <= i < w.len() ==> (#[trigger] w[i]).ip@ != nw.ip@,
    ensures
        ips_unique_windows(w.push(nw)),
        window_of(w.push(nw), nw.ip@) == nw.stamps@,
        x != nw.ip@ ==> window_of(w.push(nw), x) == window_of(w, x),
{
    let u = w.push(nw);
    assert(ips_unique_windows(u)) by {
        assert forall|i: int, j: int| 0 <= i < j < u.len() implies (#[trigger] u[i]).ip@
            != (#[trigger] u[j]).ip@ by {
            if j < w.len() {
                assert(w[i].ip@ != w[j].ip@);
            } else {
                assert(u[i] == w[i]);
            }
        }
    }
    lemma_window_at(u, w.len() as int, nw.ip@);
    if x != nw.ip@ {
        if exists|i: int| 0 <= i < w.len() && (#[trigger] w[i]).ip@ == x {
            let i = choose|i: int| 0 <= i < w.len() && (#[trigger] w[i]).ip@ == x;
            assert(u[i] == w[i]);
            lemma_window_at(w, i, x);
            lemma_window_at(u, i, x);
        } else {
            assert forall|i: int| 0 <= i < u.len() implies (#[trigger] u[i]).ip@ != x by {
                if i < w.len() {
                    assert(u[i] == w[i]);
                }
            }
        }
    }
}

proof fn lemma_window_absent(w: Seq<RateWindow>, ip: Seq<char>)
    requires
        forall|i: int| 0 <= i < w.len() ==> (#[trigger] w[i]).ip@ != ip,
    ensures
        window_of(w, ip) == Seq::<u64>::empty(),
{
}

/// The window without its stale admission times.
pub fn prune_stamps(w: &Vec<u64>, now: u64) -> (r: Vec<u64>)
    ensures
        r@ == prune(w@, now),
{
    let mut out: Vec<u64> = Vec::new();
    let mut i: usize = 0;
    assert(w@.subrange(0, w@.len() as int) == w@);
    while i < w.len()
        invariant
            i <= w@.len(),
            out@ + prune(w@.subrange(i as int, w@.len() as int), now) == prune(w@, now),
        decreases w@.len() - i,
    {
        let ghost rest = w@.subrange(i as int, w@.len() as int);
        assert(rest.drop_first() == w@.subrange(i + 1, w@.len() as int));
        assert(rest[0] == w@[i as int]);
        if !(now > w[i] && now - w[i] > RATE_WINDOW_MS) {
            let ghost before = out@;
            out.push(w[i]);
            assert(before + (seq![w@[i as int]] + prune(rest.drop_first(), now)) == out@ + prune(
                rest.drop_first(),
                now,
            ));
        }
        i = i + 1;
    }
    assert(w@.subrange(w@.len() as int, w@.len() as int) == Seq::<u64>::empty());
    assert(out@ + Seq::<u64>::empty() == out@);
    out
}

pub proof fn lemma_count_zero(s: Seq<ActiveConn>, ip: Seq<char>)
    requires
        forall|j: int| 0 <= j < s.len() ==> (#[trigger] s[j]).client_ip@ != ip,
    ensures
        count_ip(s, ip) == 0,
    decreases s.len(),
{
    if s.len() > 0 {
        lemma_count_zero(s.drop_last(), ip);
    }
}

pub proof fn lemma_count_le_len(s: Seq<ActiveConn>, ip: Seq<char>)
    ensures
        count_ip(s, ip) <= s.len(),
    decreases s.len(),
{
    if s.len() > 0 {
        lemma_count_le_len(s.drop_last(), ip);
    }
}

pub proof fn lemma_count_push(s: Seq<ActiveConn>, a: ActiveConn, ip: Seq<char>)
    ensures
        count_ip(s.push(a), ip) == count_ip(s, ip) + if a.client_ip@ == ip {
            1nat
        } else {
            0nat
        },
{
    assert(s.push(a).drop_last() == s);
}

pub proof fn lemma_ids_bound(s: Seq<ActiveConn>, i: int)
    requires
        forall|a: int, b: int| 0 <= a < b < s.len() ==> (#[trigger] s[a]).conn_id < (#[trigger] s[b]).conn_id,
        0 <= i < s.len(),
    ensures
        s[i].conn_id >= i,
    decreases i,
{
    if i > 0 {
        lemma_ids_bound(s, i - 1);
    }
}

impl ProxyState {
    /// Live connections of `ip`, read from the per-address counters.
    pub fn active_count(&self, ip: &String) -> (r: u64)
        requires
            self.wf(),
        ensures
            r == count_ip(self.active@, ip@),
    {
        let mut i: usize = 0;
        while i < self.active_by_ip.len()
            invariant
                self.wf(),
                i <= self.active_by_ip@.len(),
                forall|k: int| 0 <= k < i ==> (#[trigger] self.active_by_ip@[k]).ip@ != ip@,
            decreases self.active_by_ip@.len() - i,
        {
            if self.active_by_ip[i].ip == *ip {
                return self.active_by_ip[i].count;
            }
            i = i + 1;
        }
        proof {
            assert forall|j: int| 0 <= j < self.active@.len() implies (#[trigger] self.active@[j]).client_ip@ != ip@ by {
                assert(has_counter(self.active_by_ip@, self.active@[j].client_ip@));
            }
            lemma_count_zero(self.active@, ip@);
        }
        0
    }

    fn find_window(&self, ip: &String) -> (r: Option<usize>)
        ensures
            match r {
                Some(i) => i < self.rate_windows@.len() && self.rate_windows@[i as int].ip@ == ip@,
                None => forall|k: int|
                    0 <= k < self.rate_windows@.len() ==> (#[trigger] self.rate_windows@[k]).ip@
                        != ip@,
            },
    {
        let mut i: usize = 0;
        while i < self.rate_windows.len()
            invariant
                i <= self.rate_windows@.len(),
                forall|k: int| 0 <= k < i ==> (#[trigger] self.rate_windows@[k]).ip@ != ip@,
            decreases self.rate_windows@.len() - i,
        {
            if self.rate_windows[i].ip == *ip {
                return Some(i);
            }
            i = i + 1;
        }
        None
    }

    /// The admission times kept in the rate window of `ip`, oldest first.
    pub fn rate_window(&self, ip: &String) -> (r: Vec<u64>)
        requires
            self.wf(),
        ensures
            r@ == self.window(ip@),
    {
        match self.find_window(ip) {
            Some(i) => {
                proof {
                    lemma_window_at(self.rate_windows@, i as int, ip@);
                }
                let w = &self.rate_windows[i].stamps;
                let mut out: Vec<u64> = Vec::new();
                let mut k: usize = 0;
                while k < w.len()
                    invariant
                        k <= w@.len(),
                        out@ == w@.subrange(0, k as int),
                    decreases w@.len() - k,
                {
                    out.push(w[k]);
                    k = k + 1;
                }
                assert(w@.subrange(0, w@.len() as int) == w@);
                out
            },
            None => {
                proof {
                    lemma_window_absent(self.rate_windows@, ip@);
                }
                Vec::new()
            },
        }
    }

    /// Applies the rate window of `ip` at `now`: drops stale admissions, then records this
    /// one when fewer than the per-minute limit remain.
    fn rate_step(&mut self, ip: &String, now: u64) -> (accepted: bool)
        requires
            old(self).wf(),
        ensures
            final(self).wf(),
            final(self).same_config(old(self)),
            final(self).active == old(self).active,
            final(self).active_by_ip == old(self).active_by_ip,
            final(self).next_conn_id == old(self).next_conn_id,
            accepted == (prune(old(self).window(ip@), now).len()
                < old(self).rate_limit.max_new_connections_per_minute),
            old(self).windows_updated(
                final(self),
                ip@,
                if accepted {
                    prune(old(self).window(ip@), now).push(now)
                } else {
                    prune(old(self).window(ip@), now)
                },
            ),
    {
        let max = self.rate_limit.max_new_connections_per_minute;
        if let Some(i) = self.find_window(ip) {
            proof {
                lemma_window_at(self.rate_windows@, i as int, ip@);
            }
            let mut stamps = prune_stamps(&self.rate_windows[i].stamps, now);
            let accepted = (stamps.len() as u64) < max as u64;
            if accepted {
                stamps.push(now);
            }
            let nw = RateWindow { ip: ip.clone(), stamps };
            let ghost before = self.rate_windows@;
            self.rate_windows.set(i, nw);
            proof {
                assert forall|x: Seq<char>| x != ip@ implies #[trigger] window_of(
                    self.rate_windows@,
                    x,
                ) == window_of(before, x) by {
                    lemma_window_update(before, i as int, nw, x);
                }
                lemma_window_unique_update(before, i as int, nw);
                lemma_window_at(self.rate_windows@, i as int, ip@);
            }
            accepted
        } else {
            proof {
                lemma_window_absent(self.rate_windows@, ip@);
                assert(prune(Seq::<u64>::empty(), now) == Seq::<u64>::empty());
            }
            let mut stamps: Vec<u64> = Vec::new();
            let accepted = 0 < max;
            if accepted {
                stamps.push(now);
            }
            let nw = RateWindow { ip: ip.clone(), stamps };
            let ghost before = self.rate_windows@;
            self.rate_windows.push(nw);
            proof {
                assert forall|x: Seq<char>| x != ip@ implies #[trigger] window_of(
                    self.rate_windows@,
                    x,
                ) == window_of(before, x) by {
                    lemma_window_push(before, nw, x);
                }
                lemma_window_push(before, nw, ip@);
                assert(stamps@ =~= (if accepted { Seq::<u64>::empty().push(now) } else { Seq::<u64>::empty() }));
            }
            accepted
        }
    }
}

impl ProxyState {
    /// Applies the admission policy for `ip` arriving on `port` at `now` (milliseconds);
    /// `country` is the address's country when a country database is loaded and knows it.
    /// Only the rate window of `ip` changes, and only when the policy steps all pass.
    pub fn check_allow(
        &mut self,
        ip: &String,
        port: Option<u16>,
        country: &Option<String>,
        now: u64,
    ) -> (r: Result<(), Rejection>)
        requires
            old(self).wf(),
        ensures
            final(self).wf(),
            final(self).same_config(old(self)),
            final(self).active == old(self).active,
            final(self).active_by_ip == old(self).active_by_ip,
            final(self).next_conn_id == old(self).next_conn_id,
            r == match old(self).verdict(ip@, port, *country, now) {
                Some(x) => Err::<(), Rejection>(x),
                None => Ok(()),
            },
            old(self).windows_updated(
                final(self),
                ip@,
                old(self).window_after(ip@, port, *country, now),
            ),
    {
        if self.allowlist_enabled && !contains_str(&self.allowlist, ip) {
            return Err(Rejection::NotInAllowlist);
        }
        if let Some(p) = port {
            if contains_port(&self.allowlist_ports, p) && !contains_port_ip(
                &self.allowlist_ports,
                p,
                ip,
            ) {
                return Err(Rejection::NotInPortAllowlist { port: p });
            }
        }
        if let Some(c) = country {
            if let Some(p) = port {
                if contains_port_country(&self.geo_port_blocklist, p, c) {
                    return Err(Rejection::GeoBlockedPort { port: p, country: c.clone() });
                }
            }
            if contains_str(&self.geo_blocklist, c) {
                return Err(Rejection::GeoBlocked { country: c.clone() });
            }
        }
        if contains_str(&self.blocklist, ip) {
            return Err(Rejection::Blocked);
        }
        if let Some(p) = port {
            if contains_port_ip(&self.port_blocklist, p, ip) {
                return Err(Rejection::BlockedPort { port: p });
            }
        }
        if self.active.len() as u64 >= self.rate_limit.max_concurrent_total as u64 {
            return Err(Rejection::TooManyTotal);
        }
        if self.active_count(ip) >= self.rate_limit.max_concurrent_connections_per_ip as u64 {
            return Err(Rejection::TooManyForIp);
        }
        if self.rate_step(ip, now) {
            Ok(())
        } else {
            Err(Rejection::RateLimited)
        }
    }
}

} // verus!
