//! Operator listings of the allow, block and country lists, ordered by port then text.
use vstd::prelude::*;
use crate::geo::{GeoEntry, GeoPortEntry};
use crate::reports::{lemma_lex_irrefl, lemma_lex_trans, lex_lt, text_less};
use crate::state::{has_str, PortEntry, ProxyState};

verus! {

/// An address or country as listed; `port` is `None` for an entry that applies everywhere.
#[derive(Debug)]
pub struct Listed {
    pub text: String,
    pub port: Option<u16>,
}

pub open spec fn port_key(p: Option<u16>) -> u16 {
    match p {
        Some(v) => v,
        None => 0,
    }
}

/// Listing order: by port (none first), then by text.
pub open spec fn listed_lt(a: Listed, b: Listed) -> bool {
    port_key(a.port) < port_key(b.port) || (port_key(a.port) == port_key(b.port) && lex_lt(
        a.text@,
        b.text@,
    ))
}

pub open spec fn has_listed(v: Seq<Listed>, text: Seq<char>, port: Option<u16>) -> bool {
    exists|i: int| 0 <= i < v.len() && (#[trigger] v[i]).text@ == text && v[i].port == port
}

/// The entries a global list and a per-port list contribute.
pub open spec fn listed_from(
    global: Seq<String>,
    per_port: Seq<(u16, Seq<char>)>,
    text: Seq<char>,
    port: Option<u16>,
) -> bool {
    match port {
        None => has_str(global, text),
        Some(p) => exists|i: int| 0 <= i < per_port.len() && #[trigger] per_port[i] == (p, text),
    }
}

/// Two entries with the same text and port.
pub open spec fn same_key(a: Listed, b: Listed) -> bool {
    a.text@ == b.text@ && a.port == b.port
}

/// No entry is listed twice.
pub open spec fn listed_unique(v: Seq<Listed>) -> bool {
    forall|a: int, b: int| 0 <= a < v.len() && 0 <= b < v.len() && a < b ==> !same_key(#[trigger] v[a], #[trigger] v[b])
}

pub open spec fn sorted_listing(v: Seq<Listed>) -> bool {
    forall|a: int, b: int| 0 <= a < b < v.len() ==> !listed_lt(#[trigger] v[b], #[trigger] v[a])
}

fn listed_less(a: &Listed, b: &Listed) -> (r: bool)
    ensures
        r == listed_lt(*a, *b),
{
    let pa = match a.port {
        Some(v) => v,
        None => 0,
    };
    let pb = match b.port {
        Some(v) => v,
        None => 0,
    };
    pa < pb || (pa == pb && text_less(&a.text, &b.text))
}

/// Orders `v` by port then text, keeping its entries.
pub(crate) fn sort_listing(v: Vec<Listed>) -> (r: Vec<Listed>)
    ensures
        forall|t: Seq<char>, p: Option<u16>| #[trigger] has_listed(r@, t, p) == has_listed(v@, t, p),
        sorted_listing(r@),
        listed_unique(v@) ==> listed_unique(r@),
{
    let ghost u = listed_unique(v@);
    let mut rest = v;
    let mut out: Vec<Listed> = Vec::new();
    while rest.len() > 0
        invariant
            u == listed_unique(v@),
            u ==> listed_unique(out@),
            u ==> listed_unique(rest@),
            u ==> forall|a: int, b: int| 0 <= a < out@.len() && 0 <= b < rest@.len() ==> !same_key(#[trigger] out@[a], #[trigger] rest@[b]),
            forall|t: Seq<char>, p: Option<u16>| #[trigger] has_listed(v@, t, p) == (has_listed(out@, t, p) || has_listed(rest@, t, p)),
            sorted_listing(out@),
            forall|a: int, b: int| 0 <= a < out@.len() && 0 <= b < rest@.len() ==> !listed_lt(#[trigger] rest@[b], #[trigger] out@[a]),
        decreases rest@.len(),
    {
        let mut best: usize = 0;
        let mut m: usize = 1;
        proof {
            lemma_lex_irrefl(rest@[0].text@);
        }
        while m < rest.len()
            invariant
                best < m <= rest@.len(),
                forall|j: int| 0 <= j < m ==> !listed_lt(#[trigger] rest@[j], rest@[best as int]),
            decreases rest@.len() - m,
        {
            if listed_less(&rest[m], &rest[best]) {
                proof {
                    assert forall|j: int| 0 <= j < m implies !listed_lt(#[trigger] rest@[j], rest@[m as int]) by {
                        if listed_lt(rest@[j], rest@[m as int]) && lex_lt(rest@[j].text@, rest@[m as int].text@)
                            && lex_lt(rest@[m as int].text@, rest@[best as int].text@) {
                            lemma_lex_trans(rest@[j].text@, rest@[m as int].text@, rest@[best as int].text@);
                        }
                    }
                    lemma_lex_irrefl(rest@[m as int].text@);
                }
                best = m;
            }
            m = m + 1;
        }
        let ghost r0 = rest@;
        let ghost o0 = out@;
        let g = rest.remove(best);
        out.push(g);
        proof {
            assert forall|a: int| 0 <= a < rest@.len() implies rest@[a] == r0[if a < best { a } else { a + 1 }] by {}
            assert forall|t: Seq<char>, p: Option<u16>| #[trigger] has_listed(v@, t, p) == (has_listed(out@, t, p) || has_listed(rest@, t, p)) by {
                if has_listed(o0, t, p) {
                    let a = choose|a: int| 0 <= a < o0.len() && (#[trigger] o0[a]).text@ == t && o0[a].port == p;
                    assert(out@[a] == o0[a]);
                }
                if has_listed(r0, t, p) {
                    let a = choose|a: int| 0 <= a < r0.len() && (#[trigger] r0[a]).text@ == t && r0[a].port == p;
                    if a == best {
                        assert(out@[o0.len() as int] == r0[a]);
                    } else {
                        let a3 = if a < best { a } else { a - 1 };
                        assert(rest@[a3] == r0[a]);
                    }
                }
                if has_listed(out@, t, p) {
                    let a = choose|a: int| 0 <= a < out@.len() && (#[trigger] out@[a]).text@ == t && out@[a].port == p;
                    if a < o0.len() {
                        assert(out@[a] == o0[a]);
                    } else {
                        assert(r0[best as int] == out@[a]);
                    }
                }
                if has_listed(rest@, t, p) {
                    let a = choose|a: int| 0 <= a < rest@.len() && (#[trigger] rest@[a]).text@ == t && rest@[a].port == p;
                    let a2 = if a < best { a } else { a + 1 };
                    assert(rest@[a] == r0[a2]);
                }
            }
            assert forall|a: int, b: int| 0 <= a < b < out@.len() implies !listed_lt(#[trigger] out@[b], #[trigger] out@[a]) by {
                assert(out@[a] == o0[a]);
                if b < o0.len() {
                    assert(out@[b] == o0[b]);
                }
            }
            if u {
                assert forall|a: int, b: int| 0 <= a < out@.len() && 0 <= b < out@.len() && a < b implies !same_key(#[trigger] out@[a], #[trigger] out@[b]) by {
                    assert(out@[a] == o0[a]);
                    if b < o0.len() {
                        assert(out@[b] == o0[b]);
                    } else {
                        assert(out@[b] == r0[best as int]);
                    }
                }
                assert forall|a: int, b: int| 0 <= a < rest@.len() && 0 <= b < rest@.len() && a < b implies !same_key(#[trigger] rest@[a], #[trigger] rest@[b]) by {
                    let a2 = if a < best { a } else { a + 1 };
                    let b2 = if b < best { b } else { b + 1 };
                    assert(rest@[a] == r0[a2]);
                    assert(rest@[b] == r0[b2]);
                }
                assert forall|a: int, b: int| 0 <= a < out@.len() && 0 <= b < rest@.len() implies !same_key(#[trigger] out@[a], #[trigger] rest@[b]) by {
                    let b2 = if b < best { b } else { b + 1 };
                    assert(rest@[b] == r0[b2]);
                    if a < o0.len() {
                        assert(out@[a] == o0[a]);
                    } else {
                        assert(out@[a] == r0[best as int]);
                        if b2 < best {
                            assert(!same_key(r0[b2], r0[best as int]));
                        }
                    }
                }
            }
            assert forall|a: int, b: int| 0 <= a < out@.len() && 0 <= b < rest@.len() implies !listed_lt(#[trigger] rest@[b], #[trigger] out@[a]) by {
                let b2 = if b < best { b } else { b + 1 };
                assert(rest@[b] == r0[b2]);
                if a < o0.len() {
                    assert(out@[a] == o0[a]);
                }
            }
        }
    }
    proof {
        assert forall|t: Seq<char>, p: Option<u16>| #[trigger] has_listed(out@, t, p) == has_listed(v@, t, p) by {
            if has_listed(rest@, t, p) {
                let a = choose|a: int| 0 <= a < rest@.len() && (#[trigger] rest@[a]).text@ == t && rest@[a].port == p;
            }
        }
    }
    out
}

/// Country entries seen as listing entries.
pub open spec fn geo_listed(v: Seq<GeoEntry>) -> Seq<Listed> {
    Seq::new(v.len(), |i: int| Listed { text: v[i].country, port: v[i].port })
}

pub open spec fn port_pairs(v: Seq<PortEntry>) -> Seq<(u16, Seq<char>)> {
    Seq::new(v.len(), |i: int| (v[i].port, v[i].ip@))
}

pub open spec fn geo_pairs(v: Seq<GeoPortEntry>) -> Seq<(u16, Seq<char>)> {
    Seq::new(v.len(), |i: int| (v[i].port, v[i].country@))
}

fn pairs_of_ports(v: &Vec<PortEntry>) -> (r: Vec<(u16, String)>)
    ensures
        Seq::new(r@.len(), |i: int| (r@[i].0, r@[i].1@)) == port_pairs(v@),
{
    let mut out: Vec<(u16, String)> = Vec::new();
    let mut i: usize = 0;
    while i < v.len()
        invariant
            i <= v@.len(),
            out@.len() == i,
            forall|k: int| 0 <= k < i ==> (#[trigger] out@[k]).0 == v@[k].port && out@[k].1@ == v@[k].ip@,
        decreases v@.len() - i,
    {
        out.push((v[i].port, v[i].ip.clone()));
        i = i + 1;
    }
    assert(Seq::new(out@.len(), |i: int| (out@[i].0, out@[i].1@)) =~= port_pairs(v@));
    out
}

fn pairs_of_geo(v: &Vec<GeoPortEntry>) -> (r: Vec<(u16, String)>)
    ensures
        Seq::new(r@.len(), |i: int| (r@[i].0, r@[i].1@)) == geo_pairs(v@),
{
    let mut out: Vec<(u16, String)> = Vec::new();
    let mut i: usize = 0;
    while i < v.len()
        invariant
            i <= v@.len(),
            out@.len() == i,
            forall|k: int| 0 <= k < i ==> (#[trigger] out@[k]).0 == v@[k].port && out@[k].1@ == v@[k].country@,
        decreases v@.len() - i,
    {
        out.push((v[i].port, v[i].country.clone()));
        i = i + 1;
    }
    assert(Seq::new(out@.len(), |i: int| (out@[i].0, out@[i].1@)) =~= geo_pairs(v@));
    out
}

/// The entries of a global and a per-port list, ordered by port then text.
fn listing(global: &Vec<String>, ports: &Vec<(u16, String)>) -> (r: Vec<Listed>)
    ensures
        forall|t: Seq<char>, p: Option<u16>| #[trigger] has_listed(r@, t, p) == listed_from(
            global@,
            Seq::new(ports@.len(), |i: int| (ports@[i].0, ports@[i].1@)),
            t,
            p,
        ),
        sorted_listing(r@),
{
    let ghost pp = Seq::new(ports@.len(), |i: int| (ports@[i].0, ports@[i].1@));
    let mut out: Vec<Listed> = Vec::new();
    let mut i: usize = 0;
    while i < global.len()
        invariant
            i <= global@.len(),
            forall|t: Seq<char>, p: Option<u16>| #[trigger] has_listed(out@, t, p) == (p is None && exists|k: int| 0 <= k < i && (#[trigger] global@[k])@ == t),
        decreases global@.len() - i,
    {
        let ghost before = out@;
        out.push(Listed { text: global[i].clone(), port: None });
        proof {
            assert forall|t: Seq<char>, p: Option<u16>| #[trigger] has_listed(out@, t, p) == (p is None && exists|k: int| 0 <= k < i + 1 && (#[trigger] global@[k])@ == t) by {
                if has_listed(out@, t, p) {
                    let a = choose|a: int| 0 <= a < out@.len() && (#[trigger] out@[a]).text@ == t && out@[a].port == p;
                    if a < before.len() {
                        assert(out@[a] == before[a]);
                        assert(has_listed(before, t, p));
                    } else {
                        assert(global@[i as int]@ == t);
                    }
                }
                if p is None && exists|k: int| 0 <= k < i + 1 && (#[trigger] global@[k])@ == t {
                    let k = choose|k: int| 0 <= k < i + 1 && (#[trigger] global@[k])@ == t;
                    if k < i {
                        assert(has_listed(before, t, p));
                        let a = choose|a: int| 0 <= a < before.len() && (#[trigger] before[a]).text@ == t && before[a].port == p;
                        assert(out@[a] == before[a]);
                    } else {
                        assert(out@[before.len() as int].text@ == t);
                    }
                }
            }
        }
        i = i + 1;
    }
    let mut j: usize = 0;
    while j < ports.len()
        invariant
            j <= ports@.len(),
            pp == Seq::new(ports@.len(), |i: int| (ports@[i].0, ports@[i].1@)),
            forall|t: Seq<char>, p: Option<u16>| #[trigger] has_listed(out@, t, p) == match p {
                None => has_str(global@, t),
                Some(q) => exists|k: int| 0 <= k < j && #[trigger] pp[k] == (q, t),
            },
        decreases ports@.len() - j,
    {
        let ghost before = out@;
        out.push(Listed { text: ports[j].1.clone(), port: Some(ports[j].0) });
        proof {
            assert forall|t: Seq<char>, p: Option<u16>| #[trigger] has_listed(out@, t, p) == match p {
                None => has_str(global@, t),
                Some(q) => exists|k: int| 0 <= k < j + 1 && #[trigger] pp[k] == (q, t),
            } by {
                assert(pp[j as int] == (ports@[j as int].0, ports@[j as int].1@));
                if has_listed(out@, t, p) {
                    let a = choose|a: int| 0 <= a < out@.len() && (#[trigger] out@[a]).text@ == t && out@[a].port == p;
                    if a < before.len() {
                        assert(out@[a] == before[a]);
                        assert(has_listed(before, t, p));
                    }
                }
                let rhs = match p {
                    None => has_str(global@, t),
                    Some(q) => exists|k: int| 0 <= k < j + 1 && #[trigger] pp[k] == (q, t),
                };
                if rhs {
                    match p {
                        None => {
                            assert(has_listed(before, t, p));
                            let a = choose|a: int| 0 <= a < before.len() && (#[trigger] before[a]).text@ == t && before[a].port == p;
                            assert(out@[a] == before[a]);
                        },
                        Some(q) => {
                            let k = choose|k: int| 0 <= k < j + 1 && #[trigger] pp[k] == (q, t);
                            if k < j {
                                assert(has_listed(before, t, p));
                                let a = choose|a: int| 0 <= a < before.len() && (#[trigger] before[a]).text@ == t && before[a].port == p;
                                assert(out@[a] == before[a]);
                            } else {
                                assert(out@[before.len() as int].text@ == t);
                            }
                        },
                    }
                }
            }
        }
        j = j + 1;
    }
    sort_listing(out)
}

impl ProxyState {
    /// Blocked addresses, global (`port` `None`) and per port, ordered by port then address.
    pub fn block_entries(&self) -> (r: Vec<Listed>)
        ensures
            forall|t: Seq<char>, p: Option<u16>| #[trigger] has_listed(r@, t, p) == listed_from(
                self.blocklist@,
                port_pairs(self.port_blocklist@),
                t,
                p,
            ),
            sorted_listing(r@),
    {
        listing(&self.blocklist, &pairs_of_ports(&self.port_blocklist))
    }

    /// Allowed addresses, global (`port` `None`) and per port, ordered by port then address.
    pub fn allow_entries(&self) -> (r: Vec<Listed>)
        ensures
            forall|t: Seq<char>, p: Option<u16>| #[trigger] has_listed(r@, t, p) == listed_from(
                self.allowlist@,
                port_pairs(self.allowlist_ports@),
                t,
                p,
            ),
            sorted_listing(r@),
    {
        listing(&self.allowlist, &pairs_of_ports(&self.allowlist_ports))
    }

    /// Blocked countries, global (`port` `None`) and per port, ordered by port then code.
    pub fn geo_entries(&self) -> (r: Vec<GeoEntry>)
        ensures
            forall|t: Seq<char>, p: Option<u16>| #[trigger] has_listed(geo_listed(r@), t, p)
                == listed_from(self.geo_blocklist@, geo_pairs(self.geo_port_blocklist@), t, p),
            sorted_listing(geo_listed(r@)),
    {
        let l = listing(&self.geo_blocklist, &pairs_of_geo(&self.geo_port_blocklist));
        let mut out: Vec<GeoEntry> = Vec::new();
        let mut i: usize = 0;
        while i < l.len()
            invariant
                i <= l@.len(),
                out@.len() == i,
                forall|k: int| 0 <= k < i ==> (#[trigger] out@[k]).country == l@[k].text && out@[k].port == l@[k].port,
            decreases l@.len() - i,
        {
            out.push(GeoEntry { country: l[i].text.clone(), port: l[i].port });
            i = i + 1;
        }
        assert(geo_listed(out@) =~= l@);
        out
    }
}

} // verus!
