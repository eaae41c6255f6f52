//! The persisted part of the state: building a snapshot and loading one back.
use vstd::prelude::*;
use crate::geo::GeoPortEntry;
use crate::listing::{has_listed, listed_unique, same_key, sort_listing, sorted_listing, Listed};
use crate::registry::keep_recent;
use crate::policy::{
    geo_insert, geo_port_set, lemma_port_set_push, lemma_str_set_push, port_insert, port_set,
    str_insert, str_set,
};
use crate::state::{
    geo_unique, has_port_country, has_port_ip, limits_positive, ports_unique, strs_unique, ConnectionLog, PortEntry, ProxyRule,
    ProxyState, RateLimitConfig, MAX_HISTORY,
};

verus! {

/// What is written to the state file.
#[derive(Debug)]
pub struct PersistedState {
    pub rules: Vec<ProxyRule>,
    pub blocklist: Vec<String>,
    pub port_blocklist: Vec<PortEntry>,
    pub allowlist: Vec<String>,
    pub allowlist_ports: Vec<PortEntry>,
    pub allowlist_enabled: bool,
    pub geo_blocklist: Vec<String>,
    pub geo_port_blocklist: Vec<GeoPortEntry>,
    pub history: Vec<ConnectionLog>,
    pub rate_limit: RateLimitConfig,
}

/// What `str::to_uppercase` returns for `s`.
pub uninterp spec fn uppercase_of(s: Seq<char>) -> Seq<char>;

pub open spec fn ascii_only(s: Seq<char>) -> bool {
    forall|i: int| 0 <= i < s.len() ==> (#[trigger] s[i] as u32) < 0x80
}

pub open spec fn ascii_upper_char(c: char) -> char {
    if 'a' <= c && c <= 'z' {
        ((c as u32) - 32) as char
    } else {
        c
    }
}

/// Relies on `str::to_uppercase`: the Unicode upper-case mapping of the characters, which on
/// ASCII text maps `a`..`z` to `A`..`Z` and keeps every other character.
#[verifier::external_body]
fn to_uppercase(s: &str) -> (r: String)
    ensures
        r@ == uppercase_of(s@),
        ascii_only(s@) ==> r@ == s@.map_values(|c: char| ascii_upper_char(c)),
{
    s.to_uppercase()
}

fn copy_rules(v: &Vec<ProxyRule>) -> (r: Vec<ProxyRule>)
    ensures
        r@ == v@,
{
    let mut out: Vec<ProxyRule> = Vec::new();
    let mut i: usize = 0;
    while i < v.len()
        invariant
            i <= v@.len(),
            out@ == v@.subrange(0, i as int),
        decreases v@.len() - i,
    {
        out.push(v[i].clone());
        proof {
            assert(out@ =~= v@.subrange(0, i + 1));
        }
        i = i + 1;
    }
    assert(v@.subrange(0, v@.len() as int) =~= v@);
    out
}

fn copy_strings(v: &Vec<String>) -> (r: Vec<String>)
    ensures
        r@ == v@,
{
    let mut out: Vec<String> = Vec::new();
    let mut i: usize = 0;
    while i < v.len()
        invariant
            i <= v@.len(),
            out@ == v@.subrange(0, i as int),
        decreases v@.len() - i,
    {
        out.push(v[i].clone());
        proof {
            assert(out@ =~= v@.subrange(0, i + 1));
        }
        i = i + 1;
    }
    assert(v@.subrange(0, v@.len() as int) =~= v@);
    out
}

fn copy_logs(v: &Vec<ConnectionLog>) -> (r: Vec<ConnectionLog>)
    ensures
        r@ == v@,
{
    let mut out: Vec<ConnectionLog> = Vec::new();
    let mut i: usize = 0;
    while i < v.len()
        invariant
            i <= v@.len(),
            out@ == v@.subrange(0, i as int),
        decreases v@.len() - i,
    {
        out.push(v[i].clone());
        proof {
            assert(out@ =~= v@.subrange(0, i + 1));
        }
        i = i + 1;
    }
    assert(v@.subrange(0, v@.len() as int) =~= v@);
    out
}


/// Per-port entries seen as listing entries, so that they share the listing order.
pub open spec fn port_listed(v: Seq<PortEntry>) -> Seq<Listed> {
    Seq::new(v.len(), |i: int| Listed { text: v[i].ip, port: Some(v[i].port) })
}

/// Per-port country entries seen as listing entries.
pub open spec fn geo_port_listed(v: Seq<GeoPortEntry>) -> Seq<Listed> {
    Seq::new(v.len(), |i: int| Listed { text: v[i].country, port: Some(v[i].port) })
}

proof fn lemma_port_listed(v: Seq<PortEntry>)
    ensures
        forall|p: u16, x: Seq<char>| #[trigger] has_port_ip(v, p, x) == has_listed(port_listed(v), x, Some(p)),
        forall|x: Seq<char>| !#[trigger] has_listed(port_listed(v), x, None),
        ports_unique(v) == listed_unique(port_listed(v)),
{
    let l = port_listed(v);
    assert forall|p: u16, x: Seq<char>| #[trigger] has_port_ip(v, p, x) == has_listed(l, x, Some(p)) by {
        if has_port_ip(v, p, x) {
            let i = choose|i: int| 0 <= i < v.len() && (#[trigger] v[i]).port == p && v[i].ip@ == x;
            assert(l[i].text@ == x && l[i].port == Some(p));
        }
        if has_listed(l, x, Some(p)) {
            let i = choose|i: int| 0 <= i < l.len() && (#[trigger] l[i]).text@ == x && l[i].port == Some(p);
            assert(v[i].port == p && v[i].ip@ == x);
        }
    }
    assert forall|x: Seq<char>| !#[trigger] has_listed(l, x, None) by {
        if has_listed(l, x, None) {
            let i = choose|i: int| 0 <= i < l.len() && (#[trigger] l[i]).text@ == x && l[i].port == None::<u16>;
        }
    }
    if ports_unique(v) {
        assert forall|a: int, b: int| 0 <= a < l.len() && 0 <= b < l.len() && a < b implies !same_key(#[trigger] l[a], #[trigger] l[b]) by {
            assert(!(v[a].port == v[b].port && v[a].ip@ == v[b].ip@));
        }
    }
    if listed_unique(l) {
        assert forall|a: int, b: int| 0 <= a < b < v.len() implies !((#[trigger] v[a]).port == (#[trigger] v[b]).port && v[a].ip@ == v[b].ip@) by {
            assert(!same_key(l[a], l[b]));
        }
    }
}

proof fn lemma_geo_port_listed(v: Seq<GeoPortEntry>)
    ensures
        forall|p: u16, x: Seq<char>| #[trigger] has_port_country(v, p, x) == has_listed(geo_port_listed(v), x, Some(p)),
        forall|x: Seq<char>| !#[trigger] has_listed(geo_port_listed(v), x, None),
        geo_unique(v) == listed_unique(geo_port_listed(v)),
{
    let l = geo_port_listed(v);
    assert forall|p: u16, x: Seq<char>| #[trigger] has_port_country(v, p, x) == has_listed(l, x, Some(p)) by {
        if has_port_country(v, p, x) {
            let i = choose|i: int| 0 <= i < v.len() && (#[trigger] v[i]).port == p && v[i].country@ == x;
            assert(l[i].text@ == x && l[i].port == Some(p));
        }
        if has_listed(l, x, Some(p)) {
            let i = choose|i: int| 0 <= i < l.len() && (#[trigger] l[i]).text@ == x && l[i].port == Some(p);
            assert(v[i].port == p && v[i].country@ == x);
        }
    }
    assert forall|x: Seq<char>| !#[trigger] has_listed(l, x, None) by {
        if has_listed(l, x, None) {
            let i = choose|i: int| 0 <= i < l.len() && (#[trigger] l[i]).text@ == x && l[i].port == None::<u16>;
        }
    }
    if geo_unique(v) {
        assert forall|a: int, b: int| 0 <= a < l.len() && 0 <= b < l.len() && a < b implies !same_key(#[trigger] l[a], #[trigger] l[b]) by {
            assert(!(v[a].port == v[b].port && v[a].country@ == v[b].country@));
        }
    }
    if listed_unique(l) {
        assert forall|a: int, b: int| 0 <= a < b < v.len() implies !((#[trigger] v[a]).port == (#[trigger] v[b]).port && v[a].country@ == v[b].country@) by {
            assert(!same_key(l[a], l[b]));
        }
    }
}

/// The entries of a per-port list, ordered by port, then address.
fn sorted_port_entries(v: &Vec<PortEntry>) -> (r: Vec<PortEntry>)
    requires
        ports_unique(v@),
    ensures
        port_set(r@) == port_set(v@),
        ports_unique(r@),
        sorted_listing(port_listed(r@)),
{
    let mut l: Vec<Listed> = Vec::new();
    let mut i: usize = 0;
    while i < v.len()
        invariant
            i <= v@.len(),
            l@ == port_listed(v@).subrange(0, i as int),
        decreases v@.len() - i,
    {
        l.push(Listed { text: v[i].ip.clone(), port: Some(v[i].port) });
        assert(l@ =~= port_listed(v@).subrange(0, i + 1));
        i = i + 1;
    }
    assert(port_listed(v@).subrange(0, v@.len() as int) =~= port_listed(v@));
    proof {
        lemma_port_listed(v@);
    }
    let sorted = sort_listing(l);
    let mut out: Vec<PortEntry> = Vec::new();
    let mut j: usize = 0;
    while j < sorted.len()
        invariant
            j <= sorted@.len(),
            forall|x: Seq<char>| !#[trigger] has_listed(sorted@, x, None),
            port_listed(out@) == sorted@.subrange(0, j as int),
        decreases sorted@.len() - j,
    {
        let ghost before = out@;
        match sorted[j].port {
            Some(p) => {
                out.push(PortEntry { ip: sorted[j].text.clone(), port: p });
            },
            None => {
                proof {
                    assert(has_listed(sorted@, sorted@[j as int].text@, None));
                }
                out.push(PortEntry { ip: sorted[j].text.clone(), port: 0 });
            },
        }
        proof {
            assert(port_listed(before) == sorted@.subrange(0, j as int));
            assert(port_listed(before).len() == before.len());
            assert(sorted@.subrange(0, j as int).len() == j);
            assert(before.len() == j);
            assert forall|k: int| 0 <= k < j + 1 implies port_listed(out@)[k] == sorted@.subrange(0, j + 1)[k] by {
                if k < j {
                    assert(out@[k] == before[k]);
                    assert(port_listed(before)[k] == sorted@[k]);
                } else {
                    assert(out@[k].ip == sorted@[k].text);
                    assert(Some(out@[k].port) == sorted@[k].port);
                }
            }
        }
        assert(port_listed(out@) =~= sorted@.subrange(0, j + 1));
        j = j + 1;
    }
    assert(sorted@.subrange(0, sorted@.len() as int) =~= sorted@);
    proof {
        lemma_port_listed(out@);
        assert(port_set(out@) =~= port_set(v@));
    }
    out
}

/// The entries of a per-port country list, ordered by port, then country.
fn sorted_geo_entries(v: &Vec<GeoPortEntry>) -> (r: Vec<GeoPortEntry>)
    requires
        geo_unique(v@),
    ensures
        geo_port_set(r@) == geo_port_set(v@),
        geo_unique(r@),
        sorted_listing(geo_port_listed(r@)),
{
    let mut l: Vec<Listed> = Vec::new();
    let mut i: usize = 0;
    while i < v.len()
        invariant
            i <= v@.len(),
            l@ == geo_port_listed(v@).subrange(0, i as int),
        decreases v@.len() - i,
    {
        l.push(Listed { text: v[i].country.clone(), port: Some(v[i].port) });
        assert(l@ =~= geo_port_listed(v@).subrange(0, i + 1));
        i = i + 1;
    }
    assert(geo_port_listed(v@).subrange(0, v@.len() as int) =~= geo_port_listed(v@));
    proof {
        lemma_geo_port_listed(v@);
    }
    let sorted = sort_listing(l);
    let mut out: Vec<GeoPortEntry> = Vec::new();
    let mut j: usize = 0;
    while j < sorted.len()
        invariant
            j <= sorted@.len(),
            forall|x: Seq<char>| !#[trigger] has_listed(sorted@, x, None),
            geo_port_listed(out@) == sorted@.subrange(0, j as int),
        decreases sorted@.len() - j,
    {
        let ghost before = out@;
        match sorted[j].port {
            Some(p) => {
                out.push(GeoPortEntry { country: sorted[j].text.clone(), port: p });
            },
            None => {
                proof {
                    assert(has_listed(sorted@, sorted@[j as int].text@, None));
                }
                out.push(GeoPortEntry { country: sorted[j].text.clone(), port: 0 });
            },
        }
        proof {
            assert(geo_port_listed(before) == sorted@.subrange(0, j as int));
            assert(geo_port_listed(before).len() == before.len());
            assert(sorted@.subrange(0, j as int).len() == j);
            assert(before.len() == j);
            assert forall|k: int| 0 <= k < j + 1 implies geo_port_listed(out@)[k] == sorted@.subrange(0, j + 1)[k] by {
                if k < j {
                    assert(out@[k] == before[k]);
                    assert(geo_port_listed(before)[k] == sorted@[k]);
                } else {
                    assert(out@[k].country == sorted@[k].text);
                    assert(Some(out@[k].port) == sorted@[k].port);
                }
            }
        }
        assert(geo_port_listed(out@) =~= sorted@.subrange(0, j + 1));
        j = j + 1;
    }
    assert(sorted@.subrange(0, sorted@.len() as int) =~= sorted@);
    proof {
        lemma_geo_port_listed(out@);
        assert(geo_port_set(out@) =~= geo_port_set(v@));
    }
    out
}

/// Largest id among `ids`, 0 for none.
pub open spec fn max_rule_id(r: Seq<ProxyRule>) -> u64
    decreases r.len(),
{
    if r.len() == 0 {
        0
    } else {
        let m = max_rule_id(r.drop_last());
        if r.last().id > m {
            r.last().id
        } else {
            m
        }
    }
}

/// Largest log id, 0 for an empty log.
pub open spec fn max_log_id(h: Seq<ConnectionLog>) -> u64
    decreases h.len(),
{
    if h.len() == 0 {
        0
    } else {
        let m = max_log_id(h.drop_last());
        if h.last().id > m {
            h.last().id
        } else {
            m
        }
    }
}

/// A country code as loaded: upper-cased.
pub open spec fn loaded_code(x: Seq<char>) -> Seq<char> {
    if ascii_only(x) {
        x.map_values(|c: char| ascii_upper_char(c))
    } else {
        uppercase_of(x)
    }
}

/// The country codes a loaded list holds.
pub open spec fn loaded_codes(v: Seq<String>) -> Set<Seq<char>> {
    Set::new(|c: Seq<char>| exists|i: int| 0 <= i < v.len() && loaded_code((#[trigger] v[i])@) == c)
}

/// The `(port, country)` pairs a loaded per-port list holds.
pub open spec fn loaded_geo(v: Seq<GeoPortEntry>) -> Set<(u16, Seq<char>)> {
    Set::new(
        |x: (u16, Seq<char>)|
            exists|i: int|
                0 <= i < v.len() && ((#[trigger] v[i]).port, loaded_code(v[i].country@)) == x,
    )
}

/// Limits as ingested: each raised to at least 1.
pub open spec fn clamp_spec(r: RateLimitConfig) -> RateLimitConfig {
    RateLimitConfig {
        max_new_connections_per_minute: if r.max_new_connections_per_minute < 1 {
            1
        } else {
            r.max_new_connections_per_minute
        },
        max_concurrent_connections_per_ip: if r.max_concurrent_connections_per_ip < 1 {
            1
        } else {
            r.max_concurrent_connections_per_ip
        },
        max_concurrent_total: if r.max_concurrent_total < 1 {
            1
        } else {
            r.max_concurrent_total
        },
    }
}

/// `p` holds the persisted fields of `s`.
pub open spec fn snapshot_of(p: PersistedState, s: ProxyState) -> bool {
    &&& p.rules@ == s.rules@
    &&& p.blocklist@ == s.blocklist@
    &&& port_set(p.port_blocklist@) == port_set(s.port_blocklist@)
    &&& ports_unique(p.port_blocklist@)
    &&& sorted_listing(port_listed(p.port_blocklist@))
    &&& p.allowlist@ == s.allowlist@
    &&& port_set(p.allowlist_ports@) == port_set(s.allowlist_ports@)
    &&& ports_unique(p.allowlist_ports@)
    &&& sorted_listing(port_listed(p.allowlist_ports@))
    &&& p.allowlist_enabled == s.allowlist_enabled
    &&& p.geo_blocklist@ == s.geo_blocklist@
    &&& geo_port_set(p.geo_port_blocklist@) == geo_port_set(s.geo_port_blocklist@)
    &&& geo_unique(p.geo_port_blocklist@)
    &&& sorted_listing(geo_port_listed(p.geo_port_blocklist@))
    &&& p.history@ == s.history@
    &&& p.rate_limit == s.rate_limit
}

/// `s` is the state loaded from `p`: lists as sets without repeats, country codes
/// upper-cased, limits raised to at least 1.
pub open spec fn loaded_from(s: ProxyState, p: PersistedState) -> bool {
    &&& s.wf()
    &&& s.rules@ == p.rules@
    &&& str_set(s.blocklist@) == str_set(p.blocklist@)
    &&& port_set(s.port_blocklist@) == port_set(p.port_blocklist@)
    &&& str_set(s.allowlist@) == str_set(p.allowlist@)
    &&& port_set(s.allowlist_ports@) == port_set(p.allowlist_ports@)
    &&& s.allowlist_enabled == p.allowlist_enabled
    &&& str_set(s.geo_blocklist@) == loaded_codes(p.geo_blocklist@)
    &&& geo_port_set(s.geo_port_blocklist@) == loaded_geo(p.geo_port_blocklist@)
    &&& s.history@ == keep_recent(p.history@)
    &&& s.rate_limit == clamp_spec(p.rate_limit)
    &&& s.active@.len() == 0
    &&& s.rate_windows@.len() == 0
    &&& s.next_rule_id == max_rule_id(p.rules@) + 1
    &&& s.next_conn_id == max_log_id(p.history@) + 1
}

/// Upper-case ASCII text, as country codes are stored.
pub open spec fn upper_ascii(s: Seq<char>) -> bool {
    forall|i: int| 0 <= i < s.len() ==> (#[trigger] s[i] as u32) < 0x80 && !('a' <= s[i] && s[i] <= 'z')
}

/// Every country code of `s` is upper-case ASCII.
pub open spec fn codes_upper_ascii(s: ProxyState) -> bool {
    &&& forall|i: int| 0 <= i < s.geo_blocklist@.len() ==> upper_ascii((#[trigger] s.geo_blocklist@[i])@)
    &&& forall|i: int|
        0 <= i < s.geo_port_blocklist@.len() ==> upper_ascii((#[trigger] s.geo_port_blocklist@[i]).country@)
}

impl ProxyState {
    /// The persisted fields: rules, global lists, log and settings copied; the per-port lists
    /// holding the same pairs, ordered by port, then address or country.
    pub fn snapshot_state(&self) -> (r: PersistedState)
        requires
            self.wf(),
        ensures
            snapshot_of(r, *self),
    {
        PersistedState {
            rules: copy_rules(&self.rules),
            blocklist: copy_strings(&self.blocklist),
            port_blocklist: sorted_port_entries(&self.port_blocklist),
            allowlist: copy_strings(&self.allowlist),
            allowlist_ports: sorted_port_entries(&self.allowlist_ports),
            allowlist_enabled: self.allowlist_enabled,
            geo_blocklist: copy_strings(&self.geo_blocklist),
            geo_port_blocklist: sorted_geo_entries(&self.geo_port_blocklist),
            history: copy_logs(&self.history),
            rate_limit: self.rate_limit,
        }
    }
}

proof fn lemma_max_rule_id(r: Seq<ProxyRule>, i: int)
    requires
        0 <= i < r.len(),
    ensures
        r[i].id <= max_rule_id(r),
    decreases r.len(),
{
    if i < r.len() - 1 {
        lemma_max_rule_id(r.drop_last(), i);
    }
}

proof fn lemma_max_log_id(h: Seq<ConnectionLog>, i: int)
    requires
        0 <= i < h.len(),
    ensures
        h[i].id <= max_log_id(h),
    decreases h.len(),
{
    if i < h.len() - 1 {
        lemma_max_log_id(h.drop_last(), i);
    }
}

fn rules_max_id(r: &Vec<ProxyRule>) -> (m: u64)
    ensures
        m == max_rule_id(r@),
{
    let mut m: u64 = 0;
    let mut i: usize = 0;
    while i < r.len()
        invariant
            i <= r@.len(),
            m == max_rule_id(r@.subrange(0, i as int)),
        decreases r@.len() - i,
    {
        assert(r@.subrange(0, i + 1).drop_last() == r@.subrange(0, i as int));
        if r[i].id > m {
            m = r[i].id;
        }
        i = i + 1;
    }
    assert(r@.subrange(0, r@.len() as int) == r@);
    m
}

fn logs_max_id(h: &Vec<ConnectionLog>) -> (m: u64)
    ensures
        m == max_log_id(h@),
{
    let mut m: u64 = 0;
    let mut i: usize = 0;
    while i < h.len()
        invariant
            i <= h@.len(),
            m == max_log_id(h@.subrange(0, i as int)),
        decreases h@.len() - i,
    {
        assert(h@.subrange(0, i + 1).drop_last() == h@.subrange(0, i as int));
        if h[i].id > m {
            m = h[i].id;
        }
        i = i + 1;
    }
    assert(h@.subrange(0, h@.len() as int) == h@);
    m
}

fn load_strings(v: &Vec<String>) -> (r: Vec<String>)
    ensures
        strs_unique(r@),
        str_set(r@) == str_set(v@),
{
    let mut out: Vec<String> = Vec::new();
    let mut i: usize = 0;
    assert(str_set(out@) =~= str_set(v@.subrange(0, 0)));
    while i < v.len()
        invariant
            i <= v@.len(),
            strs_unique(out@),
            str_set(out@) == str_set(v@.subrange(0, i as int)),
        decreases v@.len() - i,
    {
        proof {
            assert(v@.subrange(0, i + 1) == v@.subrange(0, i as int).push(v@[i as int]));
            lemma_str_set_push(v@.subrange(0, i as int), v@[i as int]);
        }
        str_insert(&mut out, v[i].clone());
        i = i + 1;
    }
    assert(v@.subrange(0, v@.len() as int) == v@);
    out
}

fn load_port_entries(v: &Vec<PortEntry>) -> (r: Vec<PortEntry>)
    ensures
        ports_unique(r@),
        port_set(r@) == port_set(v@),
{
    let mut out: Vec<PortEntry> = Vec::new();
    let mut i: usize = 0;
    assert(port_set(out@) =~= port_set(v@.subrange(0, 0)));
    while i < v.len()
        invariant
            i <= v@.len(),
            ports_unique(out@),
            port_set(out@) == port_set(v@.subrange(0, i as int)),
        decreases v@.len() - i,
    {
        proof {
            assert(v@.subrange(0, i + 1) == v@.subrange(0, i as int).push(v@[i as int]));
            lemma_port_set_push(v@.subrange(0, i as int), v@[i as int]);
        }
        port_insert(&mut out, v[i].clone());
        i = i + 1;
    }
    assert(v@.subrange(0, v@.len() as int) == v@);
    out
}

proof fn lemma_loaded_codes_push(v: Seq<String>, x: String)
    ensures
        loaded_codes(v.push(x)) == loaded_codes(v).insert(loaded_code(x@)),
{
    let w = v.push(x);
    assert forall|c: Seq<char>| loaded_codes(w).contains(c) == loaded_codes(v).insert(loaded_code(x@)).contains(c) by {
        if loaded_codes(v).contains(c) {
            let i = choose|i: int| 0 <= i < v.len() && loaded_code((#[trigger] v[i])@) == c;
            assert(w[i] == v[i]);
        }
        if loaded_codes(w).contains(c) {
            let i = choose|i: int| 0 <= i < w.len() && loaded_code((#[trigger] w[i])@) == c;
            if i < v.len() {
                assert(w[i] == v[i]);
            }
        }
        if c == loaded_code(x@) {
            assert(w[v.len() as int] == x);
        }
    }
    assert(loaded_codes(w) =~= loaded_codes(v).insert(loaded_code(x@)));
}

proof fn lemma_loaded_geo_push(v: Seq<GeoPortEntry>, x: GeoPortEntry)
    ensures
        loaded_geo(v.push(x)) == loaded_geo(v).insert((x.port, loaded_code(x.country@))),
{
    let w = v.push(x);
    let e = (x.port, loaded_code(x.country@));
    assert forall|c: (u16, Seq<char>)| loaded_geo(w).contains(c) == loaded_geo(v).insert(e).contains(c) by {
        if loaded_geo(v).contains(c) {
            let i = choose|i: int| 0 <= i < v.len() && ((#[trigger] v[i]).port, loaded_code(v[i].country@)) == c;
            assert(w[i] == v[i]);
        }
        if loaded_geo(w).contains(c) {
            let i = choose|i: int| 0 <= i < w.len() && ((#[trigger] w[i]).port, loaded_code(w[i].country@)) == c;
            if i < v.len() {
                assert(w[i] == v[i]);
            }
        }
        if c == e {
            assert(w[v.len() as int] == x);
        }
    }
    assert(loaded_geo(w) =~= loaded_geo(v).insert(e));
}

fn load_codes(v: &Vec<String>) -> (r: Vec<String>)
    ensures
        strs_unique(r@),
        str_set(r@) == loaded_codes(v@),
{
    let mut out: Vec<String> = Vec::new();
    let mut i: usize = 0;
    assert(str_set(out@) =~= loaded_codes(v@.subrange(0, 0)));
    while i < v.len()
        invariant
            i <= v@.len(),
            strs_unique(out@),
            str_set(out@) == loaded_codes(v@.subrange(0, i as int)),
        decreases v@.len() - i,
    {
        proof {
            assert(v@.subrange(0, i + 1) == v@.subrange(0, i as int).push(v@[i as int]));
            lemma_loaded_codes_push(v@.subrange(0, i as int), v@[i as int]);
        }
        let c = to_uppercase(v[i].as_str());
        assert(c@ == loaded_code(v@[i as int]@));
        str_insert(&mut out, c);
        i = i + 1;
    }
    assert(v@.subrange(0, v@.len() as int) == v@);
    out
}

fn load_geo_entries(v: &Vec<GeoPortEntry>) -> (r: Vec<GeoPortEntry>)
    ensures
        geo_unique(r@),
        geo_port_set(r@) == loaded_geo(v@),
{
    let mut out: Vec<GeoPortEntry> = Vec::new();
    let mut i: usize = 0;
    assert(geo_port_set(out@) =~= loaded_geo(v@.subrange(0, 0)));
    while i < v.len()
        invariant
            i <= v@.len(),
            geo_unique(out@),
            geo_port_set(out@) == loaded_geo(v@.subrange(0, i as int)),
        decreases v@.len() - i,
    {
        proof {
            assert(v@.subrange(0, i + 1) == v@.subrange(0, i as int).push(v@[i as int]));
            lemma_loaded_geo_push(v@.subrange(0, i as int), v@[i as int]);
        }
        let c = to_uppercase(v[i].country.as_str());
        assert(c@ == loaded_code(v@[i as int].country@));
        geo_insert(&mut out, GeoPortEntry { country: c, port: v[i].port });
        i = i + 1;
    }
    assert(v@.subrange(0, v@.len() as int) == v@);
    out
}

fn clamp_limits(r: RateLimitConfig) -> (c: RateLimitConfig)
    ensures
        c == clamp_spec(r),
        limits_positive(c),
{
    RateLimitConfig {
        max_new_connections_per_minute: if r.max_new_connections_per_minute < 1 {
            1
        } else {
            r.max_new_connections_per_minute
        },
        max_concurrent_connections_per_ip: if r.max_concurrent_connections_per_ip < 1 {
            1
        } else {
            r.max_concurrent_connections_per_ip
        },
        max_concurrent_total: if r.max_concurrent_total < 1 {
            1
        } else {
            r.max_concurrent_total
        },
    }
}

impl ProxyState {
    /// The state described by a loaded snapshot: no live connections, lists without repeats,
    /// country codes upper-cased, limits at least 1, the log cut to the retention cap, and the
    /// next ids one above the largest seen. `None` when an id leaves no room above it.
    pub fn from_persisted(p: PersistedState) -> (r: Option<ProxyState>)
        ensures
            r is None <==> (max_rule_id(p.rules@) == u64::MAX || max_log_id(p.history@)
                == u64::MAX),
            r is Some ==> loaded_from(r->0, p),
    {
        let max_rule = rules_max_id(&p.rules);
        let max_log = logs_max_id(&p.history);
        if max_rule == u64::MAX || max_log == u64::MAX {
            return None;
        }
        let blocklist = load_strings(&p.blocklist);
        let port_blocklist = load_port_entries(&p.port_blocklist);
        let allowlist = load_strings(&p.allowlist);
        let allowlist_ports = load_port_entries(&p.allowlist_ports);
        let geo_blocklist = load_codes(&p.geo_blocklist);
        let geo_port_blocklist = load_geo_entries(&p.geo_port_blocklist);
        let rate_limit = clamp_limits(p.rate_limit);
        let mut history = p.history;
        let ghost full = history@;
        crate::registry::trim_history(&mut history);
        let s = ProxyState {
            rules: p.rules,
            blocklist,
            port_blocklist,
            allowlist,
            allowlist_ports,
            allowlist_enabled: p.allowlist_enabled,
            geo_blocklist,
            geo_port_blocklist,
            history,
            rate_limit,
            active: Vec::new(),
            active_by_ip: Vec::new(),
            rate_windows: Vec::new(),
            next_rule_id: max_rule + 1,
            next_conn_id: max_log + 1,
        };
        proof {
            assert forall|i: int| 0 <= i < s.rules@.len() implies (#[trigger] s.rules@[i]).id
                < s.next_rule_id by {
                lemma_max_rule_id(s.rules@, i);
            }
            assert forall|i: int| 0 <= i < s.history@.len() implies (#[trigger] s.history@[i]).id
                < s.next_conn_id by {
                if full.len() > MAX_HISTORY {
                    let off = full.len() - MAX_HISTORY;
                    assert(s.history@[i] == full[i + off]);
                    lemma_max_log_id(full, i + off);
                } else {
                    lemma_max_log_id(full, i);
                }
            }
            assert(forall|x: Seq<char>| #[trigger] crate::state::count_ip(s.active@, x) == 0);
        }
        Some(s)
    }
}

proof fn lemma_max_rule_id_is_some(r: Seq<ProxyRule>)
    ensures
        max_rule_id(r) == 0 || exists|i: int| 0 <= i < r.len() && (#[trigger] r[i]).id == max_rule_id(r),
    decreases r.len(),
{
    if r.len() > 0 {
        lemma_max_rule_id_is_some(r.drop_last());
        if max_rule_id(r) != r.last().id && max_rule_id(r) != 0 {
            let i = choose|i: int| 0 <= i < r.drop_last().len() && (#[trigger] r.drop_last()[i]).id == max_rule_id(r.drop_last());
            assert(r[i] == r.drop_last()[i]);
        } else if max_rule_id(r) != 0 {
            assert(r[r.len() - 1].id == max_rule_id(r));
        }
    }
}

proof fn lemma_max_log_id_is_some(h: Seq<ConnectionLog>)
    ensures
        max_log_id(h) == 0 || exists|i: int| 0 <= i < h.len() && (#[trigger] h[i]).id == max_log_id(h),
    decreases h.len(),
{
    if h.len() > 0 {
        lemma_max_log_id_is_some(h.drop_last());
        if max_log_id(h) != h.last().id && max_log_id(h) != 0 {
            let i = choose|i: int| 0 <= i < h.drop_last().len() && (#[trigger] h.drop_last()[i]).id == max_log_id(h.drop_last());
            assert(h[i] == h.drop_last()[i]);
        } else if max_log_id(h) != 0 {
            assert(h[h.len() - 1].id == max_log_id(h));
        }
    }
}

/// A snapshot of a well-formed state always loads: every id leaves room above it.
pub proof fn lemma_snapshot_loads(s: ProxyState, p: PersistedState)
    requires
        s.wf(),
        snapshot_of(p, s),
    ensures
        max_rule_id(p.rules@) < u64::MAX,
        max_log_id(p.history@) < u64::MAX,
{
    lemma_max_rule_id_is_some(p.rules@);
    lemma_max_log_id_is_some(p.history@);
    if max_rule_id(p.rules@) != 0 {
        let i = choose|i: int| 0 <= i < p.rules@.len() && (#[trigger] p.rules@[i]).id == max_rule_id(p.rules@);
        assert(s.rules@[i].id < s.next_rule_id);
    }
    if max_log_id(p.history@) != 0 {
        let i = choose|i: int| 0 <= i < p.history@.len() && (#[trigger] p.history@[i]).id == max_log_id(p.history@);
        assert(s.history@[i].id < s.next_conn_id);
    }
}

proof fn lemma_upper_fixed(x: Seq<char>)
    requires
        upper_ascii(x),
    ensures
        loaded_code(x) == x,
{
    assert(ascii_only(x));
    assert(x.map_values(|c: char| ascii_upper_char(c)) =~= x);
}

/// Saving a state and loading the file back gives the same rules, lists (as sets),
/// settings and log; only the live connections, rate windows and id counters are rebuilt.
pub proof fn lemma_round_trip(s: ProxyState, p: PersistedState, t: ProxyState)
    requires
        s.wf(),
        codes_upper_ascii(s),
        snapshot_of(p, s),
        loaded_from(t, p),
    ensures
        t.rules@ == s.rules@,
        str_set(t.blocklist@) == str_set(s.blocklist@),
        port_set(t.port_blocklist@) == port_set(s.port_blocklist@),
        str_set(t.allowlist@) == str_set(s.allowlist@),
        port_set(t.allowlist_ports@) == port_set(s.allowlist_ports@),
        t.allowlist_enabled == s.allowlist_enabled,
        str_set(t.geo_blocklist@) == str_set(s.geo_blocklist@),
        geo_port_set(t.geo_port_blocklist@) == geo_port_set(s.geo_port_blocklist@),
        t.history@ == s.history@,
        t.rate_limit == s.rate_limit,
{
    let g = s.geo_blocklist@;
    assert forall|c: Seq<char>| loaded_codes(g).contains(c) == str_set(g).contains(c) by {
        if loaded_codes(g).contains(c) {
            let i = choose|i: int| 0 <= i < g.len() && loaded_code((#[trigger] g[i])@) == c;
            lemma_upper_fixed(g[i]@);
        }
        if str_set(g).contains(c) {
            let i = choose|i: int| 0 <= i < g.len() && (#[trigger] g[i])@ == c;
            lemma_upper_fixed(g[i]@);
        }
    }
    assert(loaded_codes(g) =~= str_set(g));
    let q = s.geo_port_blocklist@;
    let pq = p.geo_port_blocklist@;
    assert forall|c: (u16, Seq<char>)| loaded_geo(pq).contains(c) == geo_port_set(q).contains(c) by {
        if loaded_geo(pq).contains(c) {
            let i = choose|i: int| 0 <= i < pq.len() && ((#[trigger] pq[i]).port, loaded_code(pq[i].country@)) == c;
            assert(geo_port_set(pq).contains((pq[i].port, pq[i].country@)));
            let k = choose|k: int| 0 <= k < q.len() && (#[trigger] q[k]).port == pq[i].port && q[k].country@ == pq[i].country@;
            lemma_upper_fixed(q[k].country@);
        }
        if geo_port_set(q).contains(c) {
            let k = choose|k: int| 0 <= k < q.len() && (#[trigger] q[k]).port == c.0 && q[k].country@ == c.1;
            lemma_upper_fixed(q[k].country@);
            assert(geo_port_set(pq).contains(c));
            let i = choose|i: int| 0 <= i < pq.len() && (#[trigger] pq[i]).port == c.0 && pq[i].country@ == c.1;
            assert(((pq[i]).port, loaded_code(pq[i].country@)) == c);
        }
    }
    assert(loaded_geo(pq) =~= geo_port_set(q));
}

} // verus!
