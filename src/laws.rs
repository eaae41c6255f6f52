//! Properties that relate several operations, stated over the specifications they meet.
use vstd::prelude::*;
use crate::admission::{is_stale, prune, Rejection};
use crate::port_range::{endpoint, expand_spec, ports_spec, split_spec, MAX_PORT_RANGE};
use crate::registry::{active_index, is_active_id, keep_recent};
use crate::state::{
    count_ip, has_port, has_port_ip, has_str, ConnectionLog, ProxyState, MAX_HISTORY, RATE_WINDOW_MS,
};

verus! {

/// `post` follows `pre` by a successful admission that was given id `id`.
pub open spec fn admitted(
    pre: ProxyState,
    post: ProxyState,
    ip: Seq<char>,
    port: Option<u16>,
    country: Option<String>,
    now: u64,
    id: u64,
) -> bool {
    &&& pre.verdict(ip, port, country, now) is None
    &&& id == pre.next_conn_id
    &&& post.next_conn_id == pre.next_conn_id + 1
}

/// Admissions are numbered in the order they take the state: when admission A comes before
/// admission B (with any operations in between, none of which lowers the next id), A's
/// connection id is below B's.
pub proof fn lemma_admission_order(
    s0: ProxyState,
    s1: ProxyState,
    s2: ProxyState,
    s3: ProxyState,
    ip_a: Seq<char>,
    port_a: Option<u16>,
    country_a: Option<String>,
    now_a: u64,
    id_a: u64,
    ip_b: Seq<char>,
    port_b: Option<u16>,
    country_b: Option<String>,
    now_b: u64,
    id_b: u64,
)
    requires
        admitted(s0, s1, ip_a, port_a, country_a, now_a, id_a),
        s1.next_conn_id <= s2.next_conn_id,
        admitted(s2, s3, ip_b, port_b, country_b, now_b, id_b),
    ensures
        id_a < id_b,
{
}

/// No admission succeeds while the total or the per-address number of live connections is
/// at its cap, nor while the address's rate window is full.
pub proof fn lemma_concurrency_caps(
    s: ProxyState,
    ip: Seq<char>,
    port: Option<u16>,
    country: Option<String>,
    now: u64,
)
    requires
        s.verdict(ip, port, country, now) is None,
    ensures
        s.active@.len() < s.rate_limit.max_concurrent_total,
        count_ip(s.active@, ip) < s.rate_limit.max_concurrent_connections_per_ip,
        prune(s.window(ip), now).len() < s.rate_limit.max_new_connections_per_minute,
{
}

/// The allowlist steps come before the blocklists: an address missing from a non-empty port
/// allowlist is refused for that reason even when the global blocklist also names it.
pub proof fn lemma_port_allowlist_first(
    s: ProxyState,
    ip: Seq<char>,
    port: u16,
    country: Option<String>,
    now: u64,
)
    requires
        !s.allowlist_enabled || has_str(s.allowlist@, ip),
        has_port(s.allowlist_ports@, port),
        !has_port_ip(s.allowlist_ports@, port, ip),
    ensures
        s.verdict(ip, Some(port), country, now) == Some(Rejection::NotInPortAllowlist { port }),
{
}

/// With the allowlist mode on, an address outside the global allowlist is refused for that
/// reason before any other check.
pub proof fn lemma_global_allowlist_first(
    s: ProxyState,
    ip: Seq<char>,
    port: Option<u16>,
    country: Option<String>,
    now: u64,
)
    requires
        s.allowlist_enabled,
        !has_str(s.allowlist@, ip),
    ensures
        s.verdict(ip, port, country, now) == Some(Rejection::NotInAllowlist),
{
}

/// The log never holds more than the retention cap; an append beyond it drops exactly the
/// oldest entry.
pub proof fn lemma_history_fifo(h: Seq<ConnectionLog>, e: ConnectionLog)
    requires
        h.len() <= MAX_HISTORY,
    ensures
        keep_recent(h.push(e)).len() <= MAX_HISTORY,
        keep_recent(h.push(e)).last() == e,
        h.len() < MAX_HISTORY ==> keep_recent(h.push(e)) == h.push(e),
        h.len() == MAX_HISTORY ==> keep_recent(h.push(e)) == h.drop_first().push(e),
{
    if h.len() == MAX_HISTORY {
        assert(h.push(e).subrange(1, h.len() + 1 as int) =~= h.drop_first().push(e));
    }
}

/// A port token names between 1 and 1024 consecutive non-zero ports, ascending.
pub proof fn lemma_port_tokens(raw: Seq<char>)
    requires
        ports_spec(raw) is Ok,
    ensures
        1 <= ports_spec(raw)->Ok_0.len() <= MAX_PORT_RANGE,
        forall|i: int|
            0 <= i < ports_spec(raw)->Ok_0.len() ==> (#[trigger] ports_spec(raw)->Ok_0[i]) != 0
                && ports_spec(raw)->Ok_0[i] == ports_spec(raw)->Ok_0[0] + i,
{
}

/// For valid listen and target specifications the expansion has one triple per listen port,
/// paired with the single target port or positionally; any other size is a mismatch.
pub proof fn lemma_address_expansion(listen: Seq<char>, target: Seq<char>)
    requires
        split_spec(listen) is Ok,
        ports_spec(split_spec(listen)->Ok_0.1) is Ok,
        split_spec(target) is Ok,
        ports_spec(split_spec(target)->Ok_0.1) is Ok,
    ensures
        ({
            let lh = split_spec(listen)->Ok_0.0;
            let th = split_spec(target)->Ok_0.0;
            let lports = ports_spec(split_spec(listen)->Ok_0.1)->Ok_0;
            let tports = ports_spec(split_spec(target)->Ok_0.1)->Ok_0;
            &&& expand_spec(listen, target) is Ok <==> (tports.len() == 1 || tports.len()
                == lports.len())
            &&& expand_spec(listen, target) is Ok ==> {
                let v = expand_spec(listen, target)->Ok_0;
                &&& v.len() == lports.len()
                &&& forall|i: int|
                    0 <= i < v.len() ==> (#[trigger] v[i]).1 == lports[i] && v[i].0 == endpoint(
                        lh,
                        lports[i],
                    ) && v[i].2 == endpoint(
                        th,
                        if tports.len() == 1 {
                            tports[0]
                        } else {
                            tports[i]
                        },
                    )
            }
        }),
{
}

/// The rate window of one address after an attempt at `now` that passed the policy steps.
pub open spec fn rate_step(w: Seq<u64>, now: u64, max: u32) -> Seq<u64> {
    if prune(w, now).len() < max {
        prune(w, now).push(now)
    } else {
        prune(w, now)
    }
}

/// The window after a run of attempts at the times `ts`, from an empty window.
pub open spec fn rate_run(ts: Seq<u64>, max: u32) -> Seq<u64>
    decreases ts.len(),
{
    if ts.len() == 0 {
        Seq::empty()
    } else {
        rate_step(rate_run(ts.drop_last(), max), ts.last(), max)
    }
}

/// The times of the attempts of `ts` that were admitted.
pub open spec fn rate_admits(ts: Seq<u64>, max: u32) -> Seq<u64>
    decreases ts.len(),
{
    if ts.len() == 0 {
        Seq::empty()
    } else if prune(rate_run(ts.drop_last(), max), ts.last()).len() < max {
        rate_admits(ts.drop_last(), max).push(ts.last())
    } else {
        rate_admits(ts.drop_last(), max)
    }
}

/// Number of times of `s` in the closed interval `[lo, lo + 60 s]`.
pub open spec fn count_in_window(s: Seq<u64>, lo: u64) -> nat
    decreases s.len(),
{
    if s.len() == 0 {
        0
    } else {
        count_in_window(s.drop_last(), lo) + if lo <= s.last() && s.last() <= lo + RATE_WINDOW_MS {
            1nat
        } else {
            0nat
        }
    }
}

/// Number of times of `s` not stale at `now`.
pub open spec fn count_fresh(s: Seq<u64>, now: u64) -> nat
    decreases s.len(),
{
    if s.len() == 0 {
        0
    } else {
        count_fresh(s.drop_first(), now) + if is_stale(s[0], now) {
            0nat
        } else {
            1nat
        }
    }
}

pub open spec fn ascending(s: Seq<u64>) -> bool {
    forall|i: int, j: int| 0 <= i < j < s.len() ==> s[i] <= s[j]
}

pub open spec fn all_at_most(s: Seq<u64>, t: u64) -> bool {
    forall|i: int| 0 <= i < s.len() ==> s[i] <= t
}

proof fn lemma_prune_bounded(w: Seq<u64>, now: u64, t: u64)
    requires
        all_at_most(w, t),
    ensures
        all_at_most(prune(w, now), t),
    decreases w.len(),
{
    if w.len() > 0 {
        lemma_prune_bounded(w.drop_first(), now, t);
        let p = prune(w.drop_first(), now);
        if !is_stale(w[0], now) {
            assert forall|i: int| 0 <= i < (seq![w[0]] + p).len() implies (seq![w[0]] + p)[i] <= t by {
                if i > 0 {
                    assert((seq![w[0]] + p)[i] == p[i - 1]);
                }
            }
        }
    }
}

proof fn lemma_fresh_push(w: Seq<u64>, x: u64, now: u64)
    ensures
        count_fresh(w.push(x), now) == count_fresh(w, now) + if is_stale(x, now) { 0nat } else { 1nat },
    decreases w.len(),
{
    if w.len() > 0 {
        assert(w.push(x).drop_first() == w.drop_first().push(x));
        assert(w.push(x)[0] == w[0]);
        lemma_fresh_push(w.drop_first(), x, now);
    } else {
        assert(w.push(x).drop_first() == Seq::<u64>::empty());
        assert(w.push(x)[0] == x);
        assert(count_fresh(Seq::<u64>::empty(), now) == 0);
    }
}

proof fn lemma_fresh_after_prune(w: Seq<u64>, t0: u64, t: u64)
    requires
        t0 <= t,
    ensures
        count_fresh(prune(w, t0), t) == count_fresh(w, t),
    decreases w.len(),
{
    if w.len() > 0 {
        lemma_fresh_after_prune(w.drop_first(), t0, t);
        if !is_stale(w[0], t0) {
            let q = seq![w[0]] + prune(w.drop_first(), t0);
            assert(q[0] == w[0]);
            assert(q.drop_first() == prune(w.drop_first(), t0));
        }
    }
}

/// The window after pruning holds exactly the times that are not stale.
proof fn lemma_prune_len(w: Seq<u64>, now: u64)
    ensures
        prune(w, now).len() == count_fresh(w, now),
    decreases w.len(),
{
    if w.len() > 0 {
        lemma_prune_len(w.drop_first(), now);
    }
}

proof fn lemma_window_le_fresh(s: Seq<u64>, lo: u64, t: u64)
    requires
        all_at_most(s, t),
        t <= lo + RATE_WINDOW_MS,
    ensures
        count_in_window(s, lo) <= count_fresh(s, t),
    decreases s.len(),
{
    if s.len() > 0 {
        let d = s.drop_last();
        lemma_window_le_fresh(d, lo, t);
        lemma_fresh_push(d, s.last(), t);
        assert(d.push(s.last()) == s);
    }
}

proof fn lemma_run_invariant(ts: Seq<u64>, max: u32)
    requires
        ascending(ts),
        ts.len() > 0,
    ensures
        all_at_most(rate_run(ts, max), ts.last()),
        all_at_most(rate_admits(ts, max), ts.last()),
        forall|t: u64| t >= ts.last() ==> #[trigger] count_fresh(rate_run(ts, max), t) == count_fresh(rate_admits(ts, max), t),
    decreases ts.len(),
{
    let prev = ts.drop_last();
    let t_n = ts.last();
    let w = rate_run(prev, max);
    let a = rate_admits(prev, max);
    if prev.len() > 0 {
        assert(ascending(prev)) by {
            assert forall|i: int, j: int| 0 <= i < j < prev.len() implies prev[i] <= prev[j] by {
                assert(ts[i] <= ts[j]);
            }
        }
        lemma_run_invariant(prev, max);
        assert(prev.last() <= t_n) by {
            assert(ts[prev.len() - 1] <= ts[ts.len() - 1]);
        }
    }
    let p = prune(w, t_n);
    lemma_prune_bounded(w, t_n, t_n);
    assert(all_at_most(a, t_n));
    assert forall|t: u64| t >= t_n implies #[trigger] count_fresh(rate_run(ts, max), t) == count_fresh(rate_admits(ts, max), t) by {
        lemma_fresh_after_prune(w, t_n, t);
        lemma_fresh_push(p, t_n, t);
        lemma_fresh_push(a, t_n, t);
    }
    if p.len() < max {
        assert(all_at_most(p.push(t_n), t_n));
        assert(all_at_most(a.push(t_n), t_n));
    }
}

/// Sliding rate window: over any run of attempts of one address at non-decreasing times, at
/// most `max` admissions fall in any closed 60-second interval.
pub proof fn lemma_rate_window(ts: Seq<u64>, max: u32, lo: u64)
    requires
        ascending(ts),
    ensures
        count_in_window(rate_admits(ts, max), lo) <= max,
    decreases ts.len(),
{
    if ts.len() > 0 {
        let prev = ts.drop_last();
        let t_n = ts.last();
        assert(ascending(prev)) by {
            assert forall|i: int, j: int| 0 <= i < j < prev.len() implies prev[i] <= prev[j] by {
                assert(ts[i] <= ts[j]);
            }
        }
        lemma_rate_window(prev, max, lo);
        let w = rate_run(prev, max);
        let a = rate_admits(prev, max);
        if prune(w, t_n).len() < max && lo <= t_n && t_n <= lo + RATE_WINDOW_MS {
            if prev.len() > 0 {
                lemma_run_invariant(prev, max);
                assert(prev.last() <= t_n) by {
                    assert(ts[prev.len() - 1] <= ts[ts.len() - 1]);
                }
                assert(all_at_most(a, t_n));
                lemma_window_le_fresh(a, lo, t_n);
                lemma_prune_len(w, t_n);
                lemma_fresh_after_prune(w, t_n, t_n);
            } else {
                assert(a == Seq::<u64>::empty());
            }
            assert(a.push(t_n).drop_last() == a);
        } else if prune(w, t_n).len() < max {
            assert(a.push(t_n).drop_last() == a);
        }
    }
}

/// The admission step on a rate window is `rate_step` once the policy steps pass.
pub proof fn lemma_window_after_is_rate_step(
    s: ProxyState,
    ip: Seq<char>,
    port: Option<u16>,
    country: Option<String>,
    now: u64,
)
    requires
        s.policy_verdict(ip, port, country) is None,
    ensures
        s.window_after(ip, port, country, now) == rate_step(
            s.window(ip),
            now,
            s.rate_limit.max_new_connections_per_minute,
        ),
        (s.verdict(ip, port, country, now) is None) == (prune(s.window(ip), now).len()
            < s.rate_limit.max_new_connections_per_minute),
{
}

/// Finalizing a live connection (as the idle sweep of a UDP session does) removes it from the
/// active set: no live connection keeps its id.
pub proof fn lemma_finalized_leaves_active(s: ProxyState, t: ProxyState, id: u64)
    requires
        s.wf(),
        is_active_id(s.active@, id),
        t.active@ == s.active@.remove(active_index(s.active@, id)),
    ensures
        !is_active_id(t.active@, id),
{
    let k = active_index(s.active@, id);
    if is_active_id(t.active@, id) {
        let j = choose|j: int| 0 <= j < t.active@.len() && (#[trigger] t.active@[j]).conn_id == id;
        let j2 = if j < k { j } else { j + 1 };
        assert(t.active@[j] == s.active@[j2]);
        if j2 < k {
            assert(s.active@[j2].conn_id < s.active@[k].conn_id);
        } else {
            assert(s.active@[k].conn_id < s.active@[j2].conn_id);
        }
    }
}

} // verus!
