//! Operator changes to the allow, block and country lists, the allowlist mode and limits.
use vstd::prelude::*;
use crate::geo::{normalize_country, normalize_spec, CountryError, GeoPortEntry};
use crate::state::{
    geo_unique, has_port_country, has_port_ip, has_str, ports_unique, strs_unique, PortEntry,
    ProxyState, RateLimitConfig,
};
use crate::text::{chars_of, push_str, string_from_chars, trim, trimmed};

verus! {

/// Why a list change was refused.
#[derive(Clone, Copy, Debug, PartialEq, Eq, Structural)]
pub enum PolicyError {
    IpRequired,
    InvalidPort,
    Country(CountryError),
}

impl PolicyError {
    pub open spec fn text(&self) -> Seq<char> {
        match *self {
            PolicyError::IpRequired => "IP is required"@,
            PolicyError::InvalidPort => "Port must be between 1 and 65535"@,
            PolicyError::Country(e) => e.text(),
        }
    }

    /// Operator-facing text of the error.
    pub fn message(&self) -> (r: String)
        ensures
            r@ == self.text(),
    {
        match self {
            PolicyError::IpRequired => {
                let mut out: Vec<char> = Vec::new();
                push_str(&mut out, "IP is required");
                string_from_chars(&out)
            },
            PolicyError::InvalidPort => {
                let mut out: Vec<char> = Vec::new();
                push_str(&mut out, "Port must be between 1 and 65535");
                string_from_chars(&out)
            },
            PolicyError::Country(e) => e.message(),
        }
    }
}

/// The addresses of a list, as a set.
pub open spec fn str_set(v: Seq<String>) -> Set<Seq<char>> {
    Set::new(|x: Seq<char>| has_str(v, x))
}

/// The `(port, address)` pairs of a per-port list, as a set.
pub open spec fn port_set(v: Seq<PortEntry>) -> Set<(u16, Seq<char>)> {
    Set::new(|x: (u16, Seq<char>)| has_port_ip(v, x.0, x.1))
}

/// The `(port, country)` pairs of a per-port country list, as a set.
pub open spec fn geo_port_set(v: Seq<GeoPortEntry>) -> Set<(u16, Seq<char>)> {
    Set::new(|x: (u16, Seq<char>)| has_port_country(v, x.0, x.1))
}

pub(crate) proof fn lemma_str_set_push(before: Seq<String>, s: String)
    ensures
        str_set(before.push(s)) == str_set(before).insert(s@),
{
    let v = before.push(s);
    assert forall|x: Seq<char>| has_str(v, x) == (has_str(before, x) || x == s@) by {
        if has_str(before, x) {
            let k = choose|k: int| 0 <= k < before.len() && (#[trigger] before[k])@ == x;
            assert(v[k] == before[k]);
        }
        if has_str(v, x) && x != s@ {
            let k = choose|k: int| 0 <= k < v.len() && (#[trigger] v[k])@ == x;
            assert(v[k] == before[k]);
        }
        if x == s@ {
            assert(v[before.len() as int] == s);
        }
    }
    assert(str_set(v) =~= str_set(before).insert(s@));
}

pub(crate) fn str_insert(v: &mut Vec<String>, s: String)
    requires
        strs_unique(old(v)@),
    ensures
        str_set(final(v)@) == str_set(old(v)@).insert(s@),
        strs_unique(final(v)@),
{
    let mut i: usize = 0;
    while i < v.len()
        invariant
            i <= v@.len(),
            strs_unique(v@),
            forall|k: int| 0 <= k < i ==> (#[trigger] v@[k])@ != s@,
        decreases v@.len() - i,
    {
        if v[i] == s {
            proof {
                assert(str_set(v@) =~= str_set(v@).insert(s@));
            }
            return;
        }
        i = i + 1;
    }
    let ghost before = v@;
    v.push(s);
    proof {
        lemma_str_set_push(before, s);
        assert forall|a: int, b: int| 0 <= a < b < v@.len() implies (#[trigger] v@[a])@ != (#[trigger] v@[b])@ by {
            assert(v@[a] == before[a]);
            if b < before.len() {
                assert(v@[b] == before[b]);
            }
        }
    }
}

fn str_remove(v: &mut Vec<String>, exec_s: &String)
    requires
        strs_unique(old(v)@),
    ensures
        str_set(final(v)@) == str_set(old(v)@).remove(exec_s@),
        strs_unique(final(v)@),
{
    let ghost s = exec_s@;
    let mut out: Vec<String> = Vec::new();
    let mut i: usize = 0;
    while i < v.len()
        invariant
            i <= v@.len(),
            exec_s@ == s,
            strs_unique(v@),
            strs_unique(out@),
            forall|x: Seq<char>| has_str(out@, x) == (x != s && exists|k: int| 0 <= k < i && (#[trigger] v@[k])@ == x),
        decreases v@.len() - i,
    {
        if !(v[i] == *exec_s) {
            let ghost before = out@;
            proof {
                assert forall|a: int| 0 <= a < before.len() implies (#[trigger] before[a])@ != v@[i as int]@ by {
                    assert(has_str(before, before[a]@));
                    let k = choose|k: int| 0 <= k < i && (#[trigger] v@[k])@ == before[a]@;
                    assert(v@[k]@ != v@[i as int]@);
                }
            }
            out.push(v[i].clone());
            proof {
                assert forall|a: int, b: int| 0 <= a < b < out@.len() implies (#[trigger] out@[a])@ != (#[trigger] out@[b])@ by {
                    assert(out@[a] == before[a]);
                    if b < before.len() {
                        assert(out@[b] == before[b]);
                    }
                }
                assert forall|x: Seq<char>| has_str(out@, x) == (x != s && exists|k: int| 0 <= k < i + 1 && (#[trigger] v@[k])@ == x) by {
                    if has_str(out@, x) {
                        let k = choose|k: int| 0 <= k < out@.len() && (#[trigger] out@[k])@ == x;
                        if k < before.len() {
                            assert(out@[k] == before[k]);
                            assert(has_str(before, x));
                        } else {
                            assert(v@[i as int]@ == x);
                        }
                    }
                    if x != s && exists|k: int| 0 <= k < i + 1 && (#[trigger] v@[k])@ == x {
                        let k = choose|k: int| 0 <= k < i + 1 && (#[trigger] v@[k])@ == x;
                        if k < i {
                            assert(has_str(before, x));
                            let m = choose|m: int| 0 <= m < before.len() && (#[trigger] before[m])@ == x;
                            assert(out@[m] == before[m]);
                        } else {
                            assert(out@[before.len() as int]@ == x);
                        }
                    }
                }
            }
        } else {
            proof {
                assert forall|x: Seq<char>| has_str(out@, x) == (x != s && exists|k: int| 0 <= k < i + 1 && (#[trigger] v@[k])@ == x) by {
                    if x != s && exists|k: int| 0 <= k < i + 1 && (#[trigger] v@[k])@ == x {
                        let k = choose|k: int| 0 <= k < i + 1 && (#[trigger] v@[k])@ == x;
                        assert(k < i);
                    }
                }
            }
        }
        i = i + 1;
    }
    proof {
        assert forall|x: Seq<char>| has_str(out@, x) == (has_str(v@, x) && x != s) by {
        }
        assert(str_set(out@) =~= str_set(v@).remove(s));
    }
    *v = out;
}

pub(crate) proof fn lemma_port_set_push(before: Seq<PortEntry>, e: PortEntry)
    ensures
        port_set(before.push(e)) == port_set(before).insert((e.port, e.ip@)),
{
    let v = before.push(e);
    assert forall|x: (u16, Seq<char>)| has_port_ip(v, x.0, x.1) == (has_port_ip(before, x.0, x.1) || x == (e.port, e.ip@)) by {
        if has_port_ip(before, x.0, x.1) {
            let k = choose|k: int| 0 <= k < before.len() && (#[trigger] before[k]).port == x.0 && before[k].ip@ == x.1;
            assert(v[k] == before[k]);
        }
        if has_port_ip(v, x.0, x.1) && x != (e.port, e.ip@) {
            let k = choose|k: int| 0 <= k < v.len() && (#[trigger] v[k]).port == x.0 && v[k].ip@ == x.1;
            assert(v[k] == before[k]);
        }
        if x == (e.port, e.ip@) {
            assert(v[before.len() as int] == e);
        }
    }
    assert(port_set(v) =~= port_set(before).insert((e.port, e.ip@)));
}

proof fn lemma_geo_set_push(before: Seq<GeoPortEntry>, e: GeoPortEntry)
    ensures
        geo_port_set(before.push(e)) == geo_port_set(before).insert((e.port, e.country@)),
{
    let v = before.push(e);
    assert forall|x: (u16, Seq<char>)| has_port_country(v, x.0, x.1) == (has_port_country(before, x.0, x.1) || x == (e.port, e.country@)) by {
        if has_port_country(before, x.0, x.1) {
            let k = choose|k: int| 0 <= k < before.len() && (#[trigger] before[k]).port == x.0 && before[k].country@ == x.1;
            assert(v[k] == before[k]);
        }
        if has_port_country(v, x.0, x.1) && x != (e.port, e.country@) {
            let k = choose|k: int| 0 <= k < v.len() && (#[trigger] v[k]).port == x.0 && v[k].country@ == x.1;
            assert(v[k] == before[k]);
        }
        if x == (e.port, e.country@) {
            assert(v[before.len() as int] == e);
        }
    }
    assert(geo_port_set(v) =~= geo_port_set(before).insert((e.port, e.country@)));
}

pub(crate) fn port_insert(v: &mut Vec<PortEntry>, e: PortEntry)
    requires
        ports_unique(old(v)@),
    ensures
        port_set(final(v)@) == port_set(old(v)@).insert((e.port, e.ip@)),
        ports_unique(final(v)@),
{
    let mut i: usize = 0;
    while i < v.len()
        invariant
            i <= v@.len(),
            ports_unique(v@),
            forall|k: int| 0 <= k < i ==> !((#[trigger] v@[k]).port == e.port && v@[k].ip@ == e.ip@),
        decreases v@.len() - i,
    {
        if v[i].port == e.port && v[i].ip == e.ip {
            proof {
                assert(port_set(v@) =~= port_set(v@).insert((e.port, e.ip@)));
            }
            return;
        }
        i = i + 1;
    }
    let ghost before = v@;
    v.push(e);
    proof {
        lemma_port_set_push(before, e);
        assert forall|a: int, b: int| 0 <= a < b < v@.len() implies !((#[trigger] v@[a]).port == (#[trigger] v@[b]).port && v@[a].ip@ == v@[b].ip@) by {
            assert(v@[a] == before[a]);
            if b < before.len() {
                assert(v@[b] == before[b]);
            }
        }
    }
}

fn port_remove(v: &mut Vec<PortEntry>, port: u16, ip: &String)
    requires
        ports_unique(old(v)@),
    ensures
        port_set(final(v)@) == port_set(old(v)@).remove((port, ip@)),
        ports_unique(final(v)@),
{
    let mut out: Vec<PortEntry> = Vec::new();
    let mut i: usize = 0;
    while i < v.len()
        invariant
            i <= v@.len(),
            ports_unique(v@),
            ports_unique(out@),
            forall|x: (u16, Seq<char>)| has_port_ip(out@, x.0, x.1) == (x != (port, ip@) && exists|k: int| 0 <= k < i && (#[trigger] v@[k]).port == x.0 && v@[k].ip@ == x.1),
        decreases v@.len() - i,
    {
        if !(v[i].port == port && v[i].ip == *ip) {
            let ghost before = out@;
            proof {
                assert forall|a: int| 0 <= a < before.len() implies !((#[trigger] before[a]).port == v@[i as int].port && before[a].ip@ == v@[i as int].ip@) by {
                    assert(has_port_ip(before, before[a].port, before[a].ip@));
                    let x = (before[a].port, before[a].ip@);
                    assert(has_port_ip(out@, x.0, x.1));
                    let k = choose|k: int| 0 <= k < i && (#[trigger] v@[k]).port == x.0 && v@[k].ip@ == x.1;
                    assert(!(v@[k].port == v@[i as int].port && v@[k].ip@ == v@[i as int].ip@));
                }
            }
            out.push(v[i].clone());
            proof {
                assert forall|a: int, b: int| 0 <= a < b < out@.len() implies !((#[trigger] out@[a]).port == (#[trigger] out@[b]).port && out@[a].ip@ == out@[b].ip@) by {
                    assert(out@[a] == before[a]);
                    if b < before.len() {
                        assert(out@[b] == before[b]);
                    }
                }
                assert forall|x: (u16, Seq<char>)| has_port_ip(out@, x.0, x.1) == (x != (port, ip@) && exists|k: int| 0 <= k < i + 1 && (#[trigger] v@[k]).port == x.0 && v@[k].ip@ == x.1) by {
                    if has_port_ip(out@, x.0, x.1) {
                        let k = choose|k: int| 0 <= k < out@.len() && (#[trigger] out@[k]).port == x.0 && out@[k].ip@ == x.1;
                        if k < before.len() {
                            assert(out@[k] == before[k]);
                            assert(has_port_ip(before, x.0, x.1));
                        } else {
                            assert(v@[i as int].port == x.0 && v@[i as int].ip@ == x.1);
                        }
                    }
                    if x != (port, ip@) && exists|k: int| 0 <= k < i + 1 && (#[trigger] v@[k]).port == x.0 && v@[k].ip@ == x.1 {
                        let k = choose|k: int| 0 <= k < i + 1 && (#[trigger] v@[k]).port == x.0 && v@[k].ip@ == x.1;
                        if k < i {
                            assert(has_port_ip(before, x.0, x.1));
                            let m = choose|m: int| 0 <= m < before.len() && (#[trigger] before[m]).port == x.0 && before[m].ip@ == x.1;
                            assert(out@[m] == before[m]);
                        } else {
                            assert(out@[before.len() as int] == v@[i as int]);
                        }
                    }
                }
            }
        } else {
            proof {
                assert forall|x: (u16, Seq<char>)| has_port_ip(out@, x.0, x.1) == (x != (port, ip@) && exists|k: int| 0 <= k < i + 1 && (#[trigger] v@[k]).port == x.0 && v@[k].ip@ == x.1) by {
                    if x != (port, ip@) && exists|k: int| 0 <= k < i + 1 && (#[trigger] v@[k]).port == x.0 && v@[k].ip@ == x.1 {
                        let k = choose|k: int| 0 <= k < i + 1 && (#[trigger] v@[k]).port == x.0 && v@[k].ip@ == x.1;
                        assert(k < i);
                    }
                }
            }
        }
        i = i + 1;
    }
    proof {
        assert(port_set(out@) =~= port_set(v@).remove((port, ip@)));
    }
    *v = out;
}

pub(crate) fn geo_insert(v: &mut Vec<GeoPortEntry>, e: GeoPortEntry)
    requires
        geo_unique(old(v)@),
    ensures
        geo_port_set(final(v)@) == geo_port_set(old(v)@).insert((e.port, e.country@)),
        geo_unique(final(v)@),
{
    let mut i: usize = 0;
    while i < v.len()
        invariant
            i <= v@.len(),
            geo_unique(v@),
            forall|k: int| 0 <= k < i ==> !((#[trigger] v@[k]).port == e.port && v@[k].country@ == e.country@),
        decreases v@.len() - i,
    {
        if v[i].port == e.port && v[i].country == e.country {
            proof {
                assert(geo_port_set(v@) =~= geo_port_set(v@).insert((e.port, e.country@)));
            }
            return;
        }
        i = i + 1;
    }
    let ghost before = v@;
    v.push(e);
    proof {
        lemma_geo_set_push(before, e);
        assert forall|a: int, b: int| 0 <= a < b < v@.len() implies !((#[trigger] v@[a]).port == (#[trigger] v@[b]).port && v@[a].country@ == v@[b].country@) by {
            assert(v@[a] == before[a]);
            if b < before.len() {
                assert(v@[b] == before[b]);
            }
        }
    }
}

fn geo_remove(v: &mut Vec<GeoPortEntry>, port: u16, c: &String)
    requires
        geo_unique(old(v)@),
    ensures
        geo_port_set(final(v)@) == geo_port_set(old(v)@).remove((port, c@)),
        geo_unique(final(v)@),
{
    let mut out: Vec<GeoPortEntry> = Vec::new();
    let mut i: usize = 0;
    while i < v.len()
        invariant
            i <= v@.len(),
            geo_unique(v@),
            geo_unique(out@),
            forall|x: (u16, Seq<char>)| has_port_country(out@, x.0, x.1) == (x != (port, c@) && exists|k: int| 0 <= k < i && (#[trigger] v@[k]).port == x.0 && v@[k].country@ == x.1),
        decreases v@.len() - i,
    {
        if !(v[i].port == port && v[i].country == *c) {
            let ghost before = out@;
            proof {
                assert forall|a: int| 0 <= a < before.len() implies !((#[trigger] before[a]).port == v@[i as int].port && before[a].country@ == v@[i as int].country@) by {
                    assert(has_port_country(before, before[a].port, before[a].country@));
                    let x = (before[a].port, before[a].country@);
                    assert(has_port_country(out@, x.0, x.1));
                    let k = choose|k: int| 0 <= k < i && (#[trigger] v@[k]).port == x.0 && v@[k].country@ == x.1;
                    assert(!(v@[k].port == v@[i as int].port && v@[k].country@ == v@[i as int].country@));
                }
            }
            out.push(v[i].clone());
            proof {
                assert forall|a: int, b: int| 0 <= a < b < out@.len() implies !((#[trigger] out@[a]).port == (#[trigger] out@[b]).port && out@[a].country@ == out@[b].country@) by {
                    assert(out@[a] == before[a]);
                    if b < before.len() {
                        assert(out@[b] == before[b]);
                    }
                }
                assert forall|x: (u16, Seq<char>)| has_port_country(out@, x.0, x.1) == (x != (port, c@) && exists|k: int| 0 <= k < i + 1 && (#[trigger] v@[k]).port == x.0 && v@[k].country@ == x.1) by {
                    if has_port_country(out@, x.0, x.1) {
                        let k = choose|k: int| 0 <= k < out@.len() && (#[trigger] out@[k]).port == x.0 && out@[k].country@ == x.1;
                        if k < before.len() {
                            assert(out@[k] == before[k]);
                            assert(has_port_country(before, x.0, x.1));
                        } else {
                            assert(v@[i as int].port == x.0 && v@[i as int].country@ == x.1);
                        }
                    }
                    if x != (port, c@) && exists|k: int| 0 <= k < i + 1 && (#[trigger] v@[k]).port == x.0 && v@[k].country@ == x.1 {
                        let k = choose|k: int| 0 <= k < i + 1 && (#[trigger] v@[k]).port == x.0 && v@[k].country@ == x.1;
                        if k < i {
                            assert(has_port_country(before, x.0, x.1));
                            let m = choose|m: int| 0 <= m < before.len() && (#[trigger] before[m]).port == x.0 && before[m].country@ == x.1;
                            assert(out@[m] == before[m]);
                        } else {
                            assert(out@[before.len() as int] == v@[i as int]);
                        }
                    }
                }
            }
        } else {
            proof {
                assert forall|x: (u16, Seq<char>)| has_port_country(out@, x.0, x.1) == (x != (port, c@) && exists|k: int| 0 <= k < i + 1 && (#[trigger] v@[k]).port == x.0 && v@[k].country@ == x.1) by {
                    if x != (port, c@) && exists|k: int| 0 <= k < i + 1 && (#[trigger] v@[k]).port == x.0 && v@[k].country@ == x.1 {
                        let k = choose|k: int| 0 <= k < i + 1 && (#[trigger] v@[k]).port == x.0 && v@[k].country@ == x.1;
                        assert(k < i);
                    }
                }
            }
        }
        i = i + 1;
    }
    proof {
        assert(geo_port_set(out@) =~= geo_port_set(v@).remove((port, c@)));
    }
    *v = out;
}

/// The address as a request names it: without surrounding white space.
fn trimmed_string(s: &str) -> (r: String)
    ensures
        r@ == trim(s@),
{
    string_from_chars(&trimmed(&chars_of(s)))
}

/// The outcome of a list change keyed by an address: empty addresses and port 0 are refused.
pub open spec fn ip_change_error(ip: Seq<char>, port: Option<u16>) -> Option<PolicyError> {
    if trim(ip).len() == 0 {
        Some(PolicyError::IpRequired)
    } else if port == Some(0u16) {
        Some(PolicyError::InvalidPort)
    } else {
        None
    }
}

/// The outcome of adding a country block: bad codes, then port 0, are refused.
pub open spec fn geo_change_error(country: Seq<char>, port: Option<u16>) -> Option<PolicyError> {
    match normalize_spec(country) {
        Err(e) => Some(PolicyError::Country(e)),
        Ok(_) => if port == Some(0u16) {
            Some(PolicyError::InvalidPort)
        } else {
            None
        },
    }
}

impl ProxyState {
    /// Rules, connections, log and ids are equal.
    pub open spec fn same_registry(&self, o: &Self) -> bool {
        &&& self.rules == o.rules
        &&& self.history == o.history
        &&& self.active == o.active
        &&& self.active_by_ip == o.active_by_ip
        &&& self.rate_windows == o.rate_windows
        &&& self.next_rule_id == o.next_rule_id
        &&& self.next_conn_id == o.next_conn_id
    }

    pub open spec fn same_block(&self, o: &Self) -> bool {
        self.blocklist == o.blocklist && self.port_blocklist == o.port_blocklist
    }

    pub open spec fn same_allow(&self, o: &Self) -> bool {
        self.allowlist == o.allowlist && self.allowlist_ports == o.allowlist_ports
    }

    pub open spec fn same_geo(&self, o: &Self) -> bool {
        self.geo_blocklist == o.geo_blocklist && self.geo_port_blocklist == o.geo_port_blocklist
    }

    pub open spec fn same_settings(&self, o: &Self) -> bool {
        self.allowlist_enabled == o.allowlist_enabled && self.rate_limit == o.rate_limit
    }

    /// Blocks `ip` on every port, or on `port` alone.
    pub fn add_block(&mut self, ip: &str, port: Option<u16>) -> (r: Result<(), PolicyError>)
        requires
            old(self).wf(),
        ensures
            final(self).wf(),
            ip_change_error(ip@, port) is Some ==> r == Err::<(), PolicyError>(
                ip_change_error(ip@, port)->0,
            ) && *final(self) == *old(self),
            ip_change_error(ip@, port) is None ==> {
                &&& r is Ok
                &&& final(self).same_registry(old(self))
                &&& final(self).same_allow(old(self))
                &&& final(self).same_geo(old(self))
                &&& final(self).same_settings(old(self))
                &&& match port {
                    None => str_set(final(self).blocklist@) == str_set(old(self).blocklist@).insert(
                        trim(ip@),
                    ) && final(self).port_blocklist == old(self).port_blocklist,
                    Some(p) => port_set(final(self).port_blocklist@) == port_set(
                        old(self).port_blocklist@,
                    ).insert((p, trim(ip@))) && final(self).blocklist == old(self).blocklist,
                }
            },
    {
        let ip = trimmed_string(ip);
        if ip.as_str().is_empty() {
            return Err(PolicyError::IpRequired);
        }
        match port {
            Some(p) => {
                if p == 0 {
                    return Err(PolicyError::InvalidPort);
                }
                port_insert(&mut self.port_blocklist, PortEntry { ip, port: p });
            },
            None => str_insert(&mut self.blocklist, ip),
        }
        Ok(())
    }

    /// Lifts the block of `ip` on every port, or on `port` alone.
    pub fn remove_block(&mut self, ip: &str, port: Option<u16>)
        requires
            old(self).wf(),
        ensures
            final(self).wf(),
            final(self).same_registry(old(self)),
            final(self).same_allow(old(self)),
            final(self).same_geo(old(self)),
            final(self).same_settings(old(self)),
            match port {
                None => str_set(final(self).blocklist@) == str_set(old(self).blocklist@).remove(
                    trim(ip@),
                ) && final(self).port_blocklist == old(self).port_blocklist,
                Some(p) => port_set(final(self).port_blocklist@) == port_set(
                    old(self).port_blocklist@,
                ).remove((p, trim(ip@))) && final(self).blocklist == old(self).blocklist,
            },
    {
        let ip = trimmed_string(ip);
        match port {
            Some(p) => port_remove(&mut self.port_blocklist, p, &ip),
            None => str_remove(&mut self.blocklist, &ip),
        }
    }

    /// Allows `ip` everywhere (when the allowlist mode is on), or on `port`.
    pub fn add_allow(&mut self, ip: &str, port: Option<u16>) -> (r: Result<(), PolicyError>)
        requires
            old(self).wf(),
        ensures
            final(self).wf(),
            ip_change_error(ip@, port) is Some ==> r == Err::<(), PolicyError>(
                ip_change_error(ip@, port)->0,
            ) && *final(self) == *old(self),
            ip_change_error(ip@, port) is None ==> {
                &&& r is Ok
                &&& final(self).same_registry(old(self))
                &&& final(self).same_block(old(self))
                &&& final(self).same_geo(old(self))
                &&& final(self).same_settings(old(self))
                &&& match port {
                    None => str_set(final(self).allowlist@) == str_set(old(self).allowlist@).insert(
                        trim(ip@),
                    ) && final(self).allowlist_ports == old(self).allowlist_ports,
                    Some(p) => port_set(final(self).allowlist_ports@) == port_set(
                        old(self).allowlist_ports@,
                    ).insert((p, trim(ip@))) && final(self).allowlist == old(self).allowlist,
                }
            },
    {
        let ip = trimmed_string(ip);
        if ip.as_str().is_empty() {
            return Err(PolicyError::IpRequired);
        }
        match port {
            Some(p) => {
                if p == 0 {
                    return Err(PolicyError::InvalidPort);
                }
                port_insert(&mut self.allowlist_ports, PortEntry { ip, port: p });
            },
            None => str_insert(&mut self.allowlist, ip),
        }
        Ok(())
    }

    /// Withdraws `ip` from the global allowlist, or from that of `port`.
    pub fn remove_allow(&mut self, ip: &str, port: Option<u16>)
        requires
            old(self).wf(),
        ensures
            final(self).wf(),
            final(self).same_registry(old(self)),
            final(self).same_block(old(self)),
            final(self).same_geo(old(self)),
            final(self).same_settings(old(self)),
            match port {
                None => str_set(final(self).allowlist@) == str_set(old(self).allowlist@).remove(
                    trim(ip@),
                ) && final(self).allowlist_ports == old(self).allowlist_ports,
                Some(p) => port_set(final(self).allowlist_ports@) == port_set(
                    old(self).allowlist_ports@,
                ).remove((p, trim(ip@))) && final(self).allowlist == old(self).allowlist,
            },
    {
        let ip = trimmed_string(ip);
        match port {
            Some(p) => port_remove(&mut self.allowlist_ports, p, &ip),
            None => str_remove(&mut self.allowlist, &ip),
        }
    }

    /// Blocks a country on every port, or on `port` alone.
    pub fn add_geo_block(&mut self, country: &str, port: Option<u16>) -> (r: Result<
        (),
        PolicyError,
    >)
        requires
            old(self).wf(),
        ensures
            final(self).wf(),
            geo_change_error(country@, port) is Some ==> r == Err::<(), PolicyError>(
                geo_change_error(country@, port)->0,
            ) && *final(self) == *old(self),
            geo_change_error(country@, port) is None ==> {
                let c = normalize_spec(country@)->Ok_0;
                &&& r is Ok
                &&& final(self).same_registry(old(self))
                &&& final(self).same_block(old(self))
                &&& final(self).same_allow(old(self))
                &&& final(self).same_settings(old(self))
                &&& match port {
                    None => str_set(final(self).geo_blocklist@) == str_set(
                        old(self).geo_blocklist@,
                    ).insert(c) && final(self).geo_port_blocklist == old(self).geo_port_blocklist,
                    Some(p) => geo_port_set(final(self).geo_port_blocklist@) == geo_port_set(
                        old(self).geo_port_blocklist@,
                    ).insert((p, c)) && final(self).geo_blocklist == old(self).geo_blocklist,
                }
            },
    {
        let c = match normalize_country(country) {
            Ok(c) => c,
            Err(e) => return Err(PolicyError::Country(e)),
        };
        match port {
            Some(p) => {
                if p == 0 {
                    return Err(PolicyError::InvalidPort);
                }
                geo_insert(&mut self.geo_port_blocklist, GeoPortEntry { country: c, port: p });
            },
            None => str_insert(&mut self.geo_blocklist, c),
        }
        Ok(())
    }

    /// Lifts the block of a country on every port, or on `port` alone.
    pub fn remove_geo_block(&mut self, country: &str, port: Option<u16>) -> (r: Result<
        (),
        PolicyError,
    >)
        requires
            old(self).wf(),
        ensures
            final(self).wf(),
            normalize_spec(country@) is Err ==> r == Err::<(), PolicyError>(
                PolicyError::Country(normalize_spec(country@)->Err_0),
            ) && *final(self) == *old(self),
            normalize_spec(country@) is Ok ==> {
                let c = normalize_spec(country@)->Ok_0;
                &&& r is Ok
                &&& final(self).same_registry(old(self))
                &&& final(self).same_block(old(self))
                &&& final(self).same_allow(old(self))
                &&& final(self).same_settings(old(self))
                &&& match port {
                    None => str_set(final(self).geo_blocklist@) == str_set(
                        old(self).geo_blocklist@,
                    ).remove(c) && final(self).geo_port_blocklist == old(self).geo_port_blocklist,
                    Some(p) => geo_port_set(final(self).geo_port_blocklist@) == geo_port_set(
                        old(self).geo_port_blocklist@,
                    ).remove((p, c)) && final(self).geo_blocklist == old(self).geo_blocklist,
                }
            },
    {
        let c = match normalize_country(country) {
            Ok(c) => c,
            Err(e) => return Err(PolicyError::Country(e)),
        };
        match port {
            Some(p) => geo_remove(&mut self.geo_port_blocklist, p, &c),
            None => str_remove(&mut self.geo_blocklist, &c),
        }
        Ok(())
    }

    /// Turns the global allowlist on or off.
    pub fn set_allowlist_enabled(&mut self, enabled: bool)
        requires
            old(self).wf(),
        ensures
            final(self).wf(),
            *final(self) == (ProxyState { allowlist_enabled: enabled, ..*old(self) }),
    {
        self.allowlist_enabled = enabled;
    }

    pub fn allowlist_enabled(&self) -> (r: bool)
        ensures
            r == self.allowlist_enabled,
    {
        self.allowlist_enabled
    }

    /// Changes the given limits; each new value is raised to at least 1.
    pub fn update_rate_limit(
        &mut self,
        max_new_per_minute: Option<u32>,
        max_per_ip: Option<u32>,
        max_total: Option<u32>,
    ) -> (r: RateLimitConfig)
        requires
            old(self).wf(),
        ensures
            final(self).wf(),
            *final(self) == (ProxyState { rate_limit: r, ..*old(self) }),
            r.max_new_connections_per_minute == match max_new_per_minute {
                Some(v) => if v < 1 { 1 } else { v },
                None => old(self).rate_limit.max_new_connections_per_minute,
            },
            r.max_concurrent_connections_per_ip == match max_per_ip {
                Some(v) => if v < 1 { 1 } else { v },
                None => old(self).rate_limit.max_concurrent_connections_per_ip,
            },
            r.max_concurrent_total == match max_total {
                Some(v) => if v < 1 { 1 } else { v },
                None => old(self).rate_limit.max_concurrent_total,
            },
    {
        if let Some(v) = max_new_per_minute {
            self.rate_limit.max_new_connections_per_minute = if v < 1 { 1 } else { v };
        }
        if let Some(v) = max_per_ip {
            self.rate_limit.max_concurrent_connections_per_ip = if v < 1 { 1 } else { v };
        }
        if let Some(v) = max_total {
            self.rate_limit.max_concurrent_total = if v < 1 { 1 } else { v };
        }
        self.rate_limit
    }

    pub fn rate_limit(&self) -> (r: RateLimitConfig)
        ensures
            r == self.rate_limit,
    {
        self.rate_limit
    }
}

} // verus!
