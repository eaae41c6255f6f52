//! Read-side views of the registry: recent, refused and full log, and the DDoS report.
use vstd::prelude::*;
use crate::state::{ActiveConn, ConnectionLog, ProxyRule, ProxyState, MAX_HISTORY};
use crate::text::{chars_of, contains_chars, contains_seq};

verus! {

/// Default number of entries of the recent-connections view.
pub const DEFAULT_RECENT_LIMIT: usize = 100;

/// Default number of entries of the refused-connections and log views.
pub const DEFAULT_LOG_LIMIT: usize = 200;

/// Refusals caused by load: rate limit and concurrency caps.
pub open spec fn ddos_text(reason: Seq<char>) -> bool {
    contains_seq(reason, "Rate limit"@) || contains_seq(reason, "Too many"@)
}

/// Whether a refusal reason is one of the load-caused kinds.
pub fn is_ddos_reason(reason: &str) -> (r: bool)
    ensures
        r == ddos_text(reason@),
{
    let text = chars_of(reason);
    contains_chars(&text, &chars_of("Rate limit")) || contains_chars(&text, &chars_of("Too many"))
}

/// The newest `limit` entries of `h` whose `blocked` flag is `blocked`, newest first.
pub open spec fn newest_matching(h: Seq<ConnectionLog>, blocked: bool, limit: nat) -> Seq<
    ConnectionLog,
>
    decreases h.len(),
{
    if h.len() == 0 || limit == 0 {
        Seq::empty()
    } else if h.last().blocked == blocked {
        seq![h.last()] + newest_matching(h.drop_last(), blocked, (limit - 1) as nat)
    } else {
        newest_matching(h.drop_last(), blocked, limit)
    }
}

/// A requested limit with its default, capped at the retention cap.
pub open spec fn effective_limit(limit: Option<usize>, default: usize) -> nat {
    let l = match limit {
        Some(l) => l,
        None => default,
    };
    if l > MAX_HISTORY {
        MAX_HISTORY as nat
    } else {
        l as nat
    }
}

fn limit_of(limit: Option<usize>, default: usize) -> (r: usize)
    ensures
        r == effective_limit(limit, default),
{
    let l = match limit {
        Some(l) => l,
        None => default,
    };
    if l > MAX_HISTORY {
        MAX_HISTORY
    } else {
        l
    }
}

proof fn lemma_newest_step(h: Seq<ConnectionLog>, i: int, blocked: bool, limit: nat)
    requires
        0 < i <= h.len(),
        limit > 0,
    ensures
        newest_matching(h.subrange(0, i), blocked, limit) == if h[i - 1].blocked == blocked {
            seq![h[i - 1]] + newest_matching(h.subrange(0, i - 1), blocked, (limit - 1) as nat)
        } else {
            newest_matching(h.subrange(0, i - 1), blocked, limit)
        },
{
    assert(h.subrange(0, i).drop_last() == h.subrange(0, i - 1));
}

fn newest(h: &Vec<ConnectionLog>, blocked: bool, limit: usize) -> (r: Vec<ConnectionLog>)
    ensures
        r@ == newest_matching(h@, blocked, limit as nat),
{
    let mut out: Vec<ConnectionLog> = Vec::new();
    let mut i: usize = h.len();
    proof {
        assert(h@.subrange(0, h@.len() as int) == h@);
        assert(out@ + newest_matching(h@, blocked, limit as nat) =~= newest_matching(h@, blocked, limit as nat));
    }
    while i > 0 && out.len() < limit
        invariant
            i <= h@.len(),
            out@.len() <= limit,
            out@ + newest_matching(h@.subrange(0, i as int), blocked, (limit - out@.len()) as nat)
                == newest_matching(h@, blocked, limit as nat),
        decreases i,
    {
        proof {
            lemma_newest_step(h@, i as int, blocked, (limit - out@.len()) as nat);
        }
        if h[i - 1].blocked == blocked {
            let ghost before = out@;
            out.push(h[i - 1].clone());
            proof {
                assert(out@ == before + seq![h@[i - 1]]);
                assert(before + (seq![h@[i - 1]] + newest_matching(h@.subrange(0, i - 1), blocked, (limit - out@.len()) as nat))
                    == out@ + newest_matching(h@.subrange(0, i - 1), blocked, (limit - out@.len()) as nat));
            }
        }
        i = i - 1;
    }
    proof {
        assert(h@.subrange(0, h@.len() as int) == h@);
        if i == 0 {
            assert(h@.subrange(0, 0) == Seq::<ConnectionLog>::empty());
        }
        assert(newest_matching(h@.subrange(0, i as int), blocked, (limit - out@.len()) as nat)
            == Seq::<ConnectionLog>::empty());
        assert(out@ + Seq::<ConnectionLog>::empty() == out@);
    }
    out
}

impl ProxyState {
    /// Newest finished (not refused) connections, newest first; `limit` defaults to 100.
    pub fn recent_connections(&self, limit: Option<usize>) -> (r: Vec<ConnectionLog>)
        ensures
            r@ == newest_matching(self.history@, false, effective_limit(limit, DEFAULT_RECENT_LIMIT)),
    {
        newest(&self.history, false, limit_of(limit, DEFAULT_RECENT_LIMIT))
    }

    /// Newest refused connections, newest first; `limit` defaults to 200.
    pub fn blocked_connections(&self, limit: Option<usize>) -> (r: Vec<ConnectionLog>)
        ensures
            r@ == newest_matching(self.history@, true, effective_limit(limit, DEFAULT_LOG_LIMIT)),
    {
        newest(&self.history, true, limit_of(limit, DEFAULT_LOG_LIMIT))
    }

    /// The trailing `limit` log entries, oldest first; `limit` defaults to 200.
    pub fn history_tail(&self, limit: Option<usize>) -> (r: Vec<ConnectionLog>)
        ensures
            r@ == if self.history@.len() > effective_limit(limit, DEFAULT_LOG_LIMIT) {
                self.history@.subrange(
                    self.history@.len() - effective_limit(limit, DEFAULT_LOG_LIMIT),
                    self.history@.len() as int,
                )
            } else {
                self.history@
            },
    {
        let l = limit_of(limit, DEFAULT_LOG_LIMIT);
        let n = self.history.len();
        let start = if n > l { n - l } else { 0 };
        let mut out: Vec<ConnectionLog> = Vec::new();
        let mut i = start;
        while i < n
            invariant
                start <= i <= n == self.history@.len(),
                out@ == self.history@.subrange(start as int, i as int),
            decreases n - i,
        {
            out.push(self.history[i].clone());
            proof {
                assert(out@ =~= self.history@.subrange(start as int, i + 1));
            }
            i = i + 1;
        }
        proof {
            assert(self.history@.subrange(0, n as int) == self.history@);
        }
        out
    }

    /// Live connections, in order of admission.
    pub fn active_connections(&self) -> (r: Vec<ActiveConn>)
        ensures
            r@ == self.active@,
    {
        let mut out: Vec<ActiveConn> = Vec::new();
        let mut i: usize = 0;
        while i < self.active.len()
            invariant
                i <= self.active@.len(),
                out@ == self.active@.subrange(0, i as int),
            decreases self.active@.len() - i,
        {
            out.push(self.active[i].clone());
            proof {
                assert(out@ =~= self.active@.subrange(0, i + 1));
            }
            i = i + 1;
        }
        proof {
            assert(self.active@.subrange(0, self.active@.len() as int) == self.active@);
        }
        out
    }

    pub fn rules(&self) -> (r: &Vec<ProxyRule>)
        ensures
            r@ == self.rules@,
    {
        &self.rules
    }

    pub fn history(&self) -> (r: &Vec<ConnectionLog>)
        ensures
            r@ == self.history@,
    {
        &self.history
    }

    pub fn active_len(&self) -> (r: usize)
        ensures
            r == self.active@.len(),
    {
        self.active.len()
    }

    /// Number of blocked addresses, global and per port.
    pub fn block_count(&self) -> (r: usize)
        ensures
            r == if self.blocklist@.len() + self.port_blocklist@.len() > usize::MAX {
                usize::MAX as int
            } else {
                (self.blocklist@.len() + self.port_blocklist@.len()) as int
            },
    {
        if self.blocklist.len() > usize::MAX - self.port_blocklist.len() {
            usize::MAX
        } else {
            self.blocklist.len() + self.port_blocklist.len()
        }
    }
}

/// One client address in the DDoS report.
#[derive(Debug)]
pub struct DdosEntry {
    pub ip: String,
    pub count: u64,
    pub last_seen: String,
    pub last_reason: String,
    pub last_port: Option<u16>,
}

/// A refusal caused by load.
pub open spec fn is_ddos_log(e: ConnectionLog) -> bool {
    e.blocked && e.reason is Some && ddos_text(e.reason->0@)
}

/// When a log entry happened: its end, else its start.
pub open spec fn seen_at(e: ConnectionLog) -> String {
    match e.ended_at {
        Some(t) => t,
        None => e.started_at,
    }
}

/// Number of load-caused refusals of `ip` in `h`.
pub open spec fn ddos_count(h: Seq<ConnectionLog>, ip: Seq<char>) -> nat
    decreases h.len(),
{
    if h.len() == 0 {
        0
    } else {
        ddos_count(h.drop_last(), ip) + if is_ddos_log(h.last()) && h.last().client_ip@ == ip {
            1nat
        } else {
            0nat
        }
    }
}

/// Position of the newest load-caused refusal of `ip` in `h`, or -1.
pub open spec fn ddos_last(h: Seq<ConnectionLog>, ip: Seq<char>) -> int
    decreases h.len(),
{
    if h.len() == 0 {
        -1
    } else if is_ddos_log(h.last()) && h.last().client_ip@ == ip {
        h.len() - 1
    } else {
        ddos_last(h.drop_last(), ip)
    }
}

/// `g` summarises the load-caused refusals of its address in `h`.
pub open spec fn valid_group(h: Seq<ConnectionLog>, g: DdosEntry) -> bool {
    let k = ddos_last(h, g.ip@);
    &&& 0 <= k < h.len()
    &&& g.count == ddos_count(h, g.ip@)
    &&& g.last_seen == seen_at(h[k])
    &&& g.last_reason == h[k].reason->0
    &&& g.last_port == h[k].listen_port
}

/// Lexicographic order of character sequences (that of their UTF-8 bytes).
pub open spec fn lex_lt(a: Seq<char>, b: Seq<char>) -> bool
    decreases a.len(),
{
    if a.len() == 0 {
        b.len() > 0
    } else if b.len() == 0 {
        false
    } else if a[0] != b[0] {
        a[0] < b[0]
    } else {
        lex_lt(a.drop_first(), b.drop_first())
    }
}

pub(crate) proof fn lemma_lex_irrefl(a: Seq<char>)
    ensures
        !lex_lt(a, a),
    decreases a.len(),
{
    if a.len() > 0 {
        lemma_lex_irrefl(a.drop_first());
    }
}

pub(crate) proof fn lemma_lex_trans(a: Seq<char>, b: Seq<char>, c: Seq<char>)
    requires
        lex_lt(a, b),
        lex_lt(b, c),
    ensures
        lex_lt(a, c),
    decreases a.len(),
{
    if a.len() > 0 && a[0] == b[0] && b[0] == c[0] {
        lemma_lex_trans(a.drop_first(), b.drop_first(), c.drop_first());
    }
}

proof fn lemma_lex_skip(a: Seq<char>, b: Seq<char>, i: int)
    requires
        0 <= i <= a.len(),
        i <= b.len(),
        a.subrange(0, i) == b.subrange(0, i),
    ensures
        lex_lt(a, b) == lex_lt(a.subrange(i, a.len() as int), b.subrange(i, b.len() as int)),
    decreases i,
{
    if i > 0 {
        assert(a[0] == a.subrange(0, i)[0]);
        assert(b[0] == b.subrange(0, i)[0]);
        assert(a.drop_first().subrange(0, i - 1) =~= a.subrange(0, i).drop_first());
        assert(b.drop_first().subrange(0, i - 1) =~= b.subrange(0, i).drop_first());
        lemma_lex_skip(a.drop_first(), b.drop_first(), i - 1);
        assert(a.drop_first().subrange(i - 1, a.len() - 1) =~= a.subrange(i, a.len() as int));
        assert(b.drop_first().subrange(i - 1, b.len() - 1) =~= b.subrange(i, b.len() as int));
    } else {
        assert(a.subrange(0, a.len() as int) == a);
        assert(b.subrange(0, b.len() as int) == b);
    }
}

/// Whether `a` sorts before `b`.
pub fn text_less(a: &String, b: &String) -> (r: bool)
    ensures
        r == lex_lt(a@, b@),
{
    let x = chars_of(a.as_str());
    let y = chars_of(b.as_str());
    let mut i: usize = 0;
    while i < x.len() && i < y.len() && x[i] == y[i]
        invariant
            i <= x@.len(),
            i <= y@.len(),
            x@.subrange(0, i as int) == y@.subrange(0, i as int),
        decreases x@.len() - i,
    {
        assert(x@.subrange(0, i + 1) =~= y@.subrange(0, i + 1));
        i = i + 1;
    }
    proof {
        lemma_lex_skip(x@, y@, i as int);
        let xs = x@.subrange(i as int, x@.len() as int);
        let ys = y@.subrange(i as int, y@.len() as int);
        if xs.len() > 0 && ys.len() > 0 {
            assert(xs[0] == x@[i as int]);
            assert(ys[0] == y@[i as int]);
        }
    }
    if i == x.len() {
        i < y.len()
    } else if i == y.len() {
        false
    } else {
        x[i] < y[i]
    }
}

proof fn lemma_ddos_step(h: Seq<ConnectionLog>, i: int, x: Seq<char>)
    requires
        0 <= i < h.len(),
    ensures
        ddos_count(h.subrange(0, i + 1), x) == ddos_count(h.subrange(0, i), x) + if is_ddos_log(h[i])
            && h[i].client_ip@ == x {
            1nat
        } else {
            0nat
        },
        ddos_last(h.subrange(0, i + 1), x) == if is_ddos_log(h[i]) && h[i].client_ip@ == x {
            i
        } else {
            ddos_last(h.subrange(0, i), x)
        },
{
    assert(h.subrange(0, i + 1).drop_last() == h.subrange(0, i));
}

proof fn lemma_ddos_last_range(h: Seq<ConnectionLog>, x: Seq<char>)
    ensures
        -1 <= ddos_last(h, x) < h.len(),
        ddos_last(h, x) >= 0 ==> is_ddos_log(h[ddos_last(h, x)]) && h[ddos_last(h, x)].client_ip@ == x,
        ddos_count(h, x) <= h.len(),
    decreases h.len(),
{
    if h.len() > 0 {
        lemma_ddos_last_range(h.drop_last(), x);
    }
}

fn ddos_groups(h: &Vec<ConnectionLog>) -> (r: Vec<DdosEntry>)
    requires
        h@.len() <= MAX_HISTORY,
    ensures
        forall|a: int| 0 <= a < r@.len() ==> valid_group(h@, #[trigger] r@[a]),
        forall|a: int, b: int| 0 <= a < b < r@.len() ==> (#[trigger] r@[a]).ip@ != (#[trigger] r@[b]).ip@,
        forall|x: Seq<char>| ddos_last(h@, x) >= 0 ==> exists|a: int| 0 <= a < r@.len() && (#[trigger] r@[a]).ip@ == x,
{
    let mut groups: Vec<DdosEntry> = Vec::new();
    let mut i: usize = 0;
    while i < h.len()
        invariant
            i <= h@.len() <= MAX_HISTORY,
            forall|a: int| 0 <= a < groups@.len() ==> valid_group(h@.subrange(0, i as int), #[trigger] groups@[a]),
            forall|a: int, b: int| 0 <= a < b < groups@.len() ==> (#[trigger] groups@[a]).ip@ != (#[trigger] groups@[b]).ip@,
            forall|x: Seq<char>| ddos_last(h@.subrange(0, i as int), x) >= 0 ==> exists|a: int| 0 <= a < groups@.len() && (#[trigger] groups@[a]).ip@ == x,
        decreases h@.len() - i,
    {
        let ghost pre = h@.subrange(0, i as int);
        let ghost post = h@.subrange(0, i + 1);
        let e = &h[i];
        let is_ddos = e.blocked && match &e.reason {
            Some(reason) => is_ddos_reason(reason.as_str()),
            None => false,
        };
        if is_ddos {
            let ip = &e.client_ip;
            let seen = match &e.ended_at {
                Some(t) => t.clone(),
                None => e.started_at.clone(),
            };
            let reason = match &e.reason {
                Some(reason) => reason.clone(),
                None => String::new(),
            };
            let mut k: usize = 0;
            while k < groups.len() && !(groups[k].ip == *ip)
                invariant
                    k <= groups@.len(),
                    forall|m: int| 0 <= m < k ==> (#[trigger] groups@[m]).ip@ != ip@,
                decreases groups@.len() - k,
            {
                k = k + 1;
            }
            let ghost before = groups@;
            if k < groups.len() && groups[k].ip == *ip {
                proof {
                    lemma_ddos_last_range(pre, ip@);
                }
                let count = groups[k].count + 1;
                let g = DdosEntry { ip: ip.clone(), count, last_seen: seen, last_reason: reason, last_port: e.listen_port };
                groups.set(k, g);
                proof {
                    assert forall|a: int| 0 <= a < groups@.len() implies valid_group(post, #[trigger] groups@[a]) by {
                        lemma_ddos_step(h@, i as int, groups@[a].ip@);
                        if a != k {
                            assert(groups@[a] == before[a]);
                            if a < k {
                                assert(before[a].ip@ != before[k as int].ip@);
                            } else {
                                assert(before[k as int].ip@ != before[a].ip@);
                            }
                            let x = before[a].ip@;
                            lemma_ddos_last_range(pre, x);
                            assert(h@[ddos_last(pre, x)] == pre[ddos_last(pre, x)]);
                            assert(post[ddos_last(pre, x)] == pre[ddos_last(pre, x)]);
                        } else {
                            assert(post[i as int] == h@[i as int]);
                        }
                    }
                    assert forall|a: int, b: int| 0 <= a < b < groups@.len() implies (#[trigger] groups@[a]).ip@ != (#[trigger] groups@[b]).ip@ by {
                        assert(before[a].ip@ != before[b].ip@);
                    }
                    assert forall|x: Seq<char>| ddos_last(post, x) >= 0 implies exists|a: int| 0 <= a < groups@.len() && (#[trigger] groups@[a]).ip@ == x by {
                        lemma_ddos_step(h@, i as int, x);
                        if x == ip@ {
                            assert(groups@[k as int].ip@ == x);
                        } else {
                            let a = choose|a: int| 0 <= a < before.len() && (#[trigger] before[a]).ip@ == x;
                            assert(groups@[a].ip@ == x);
                        }
                    }
                }
            } else {
                proof {
                    assert forall|x: Seq<char>| x == ip@ implies ddos_last(pre, x) < 0 by {
                        if ddos_last(pre, x) >= 0 {
                            let a = choose|a: int| 0 <= a < before.len() && (#[trigger] before[a]).ip@ == x;
                            assert(before[a].ip@ != ip@);
                        }
                    }
                    assert(ddos_last(pre, ip@) < 0);
                    lemma_ddos_last_range(pre, ip@);
                    assert(ddos_count(pre, ip@) == 0) by {
                        lemma_ddos_none_count(pre, ip@);
                    }
                }
                let g = DdosEntry { ip: ip.clone(), count: 1, last_seen: seen, last_reason: reason, last_port: e.listen_port };
                groups.push(g);
                proof {
                    assert forall|a: int| 0 <= a < groups@.len() implies valid_group(post, #[trigger] groups@[a]) by {
                        lemma_ddos_step(h@, i as int, groups@[a].ip@);
                        if a < before.len() {
                            assert(groups@[a] == before[a]);
                            let x = before[a].ip@;
                            assert(x != ip@);
                            lemma_ddos_last_range(pre, x);
                            assert(post[ddos_last(pre, x)] == pre[ddos_last(pre, x)]);
                        } else {
                            assert(post[i as int] == h@[i as int]);
                        }
                    }
                    assert forall|a: int, b: int| 0 <= a < b < groups@.len() implies (#[trigger] groups@[a]).ip@ != (#[trigger] groups@[b]).ip@ by {
                        if b < before.len() {
                            assert(before[a].ip@ != before[b].ip@);
                        } else {
                            assert(groups@[a] == before[a]);
                        }
                    }
                    assert forall|x: Seq<char>| ddos_last(post, x) >= 0 implies exists|a: int| 0 <= a < groups@.len() && (#[trigger] groups@[a]).ip@ == x by {
                        lemma_ddos_step(h@, i as int, x);
                        if x == ip@ {
                            assert(groups@[before.len() as int].ip@ == x);
                        } else {
                            let a = choose|a: int| 0 <= a < before.len() && (#[trigger] before[a]).ip@ == x;
                            assert(groups@[a].ip@ == x);
                        }
                    }
                }
            }
        } else {
            proof {
                assert(!is_ddos_log(h@[i as int]));
                assert forall|x: Seq<char>| ddos_last(post, x) >= 0 implies exists|a: int| 0 <= a < groups@.len() && (#[trigger] groups@[a]).ip@ == x by {
                    lemma_ddos_step(h@, i as int, x);
                }
                assert forall|a: int| 0 <= a < groups@.len() implies valid_group(post, #[trigger] groups@[a]) by {
                    let x = groups@[a].ip@;
                    lemma_ddos_step(h@, i as int, x);
                    lemma_ddos_last_range(pre, x);
                    assert(post[ddos_last(pre, x)] == pre[ddos_last(pre, x)]);
                }
            }
        }
        i = i + 1;
    }
    proof {
        assert(h@.subrange(0, h@.len() as int) == h@);
    }
    groups
}

proof fn lemma_ddos_none_count(h: Seq<ConnectionLog>, x: Seq<char>)
    requires
        ddos_last(h, x) < 0,
    ensures
        ddos_count(h, x) == 0,
    decreases h.len(),
{
    if h.len() > 0 {
        lemma_ddos_none_count(h.drop_last(), x);
    }
}

impl ProxyState {
    /// Load-caused refusals grouped by client address, with the count and the newest
    /// refusal of each; newest first.
    pub fn ddos_list(&self) -> (r: Vec<DdosEntry>)
        requires
            self.wf(),
        ensures
            forall|a: int| 0 <= a < r@.len() ==> valid_group(self.history@, #[trigger] r@[a]),
            forall|a: int, b: int| 0 <= a < b < r@.len() ==> (#[trigger] r@[a]).ip@ != (#[trigger] r@[b]).ip@,
            forall|x: Seq<char>| ddos_last(self.history@, x) >= 0 ==> exists|a: int| 0 <= a < r@.len() && (#[trigger] r@[a]).ip@ == x,
            forall|a: int, b: int| 0 <= a < b < r@.len() ==> !lex_lt((#[trigger] r@[a]).last_seen@, (#[trigger] r@[b]).last_seen@),
    {
        let ghost h = self.history@;
        let mut rest = ddos_groups(&self.history);
        let mut out: Vec<DdosEntry> = Vec::new();
        while rest.len() > 0
            invariant
                forall|a: int| 0 <= a < out@.len() ==> valid_group(h, #[trigger] out@[a]),
                forall|a: int| 0 <= a < rest@.len() ==> valid_group(h, #[trigger] rest@[a]),
                forall|a: int, b: int| 0 <= a < b < out@.len() ==> (#[trigger] out@[a]).ip@ != (#[trigger] out@[b]).ip@,
                forall|a: int, b: int| 0 <= a < b < rest@.len() ==> (#[trigger] rest@[a]).ip@ != (#[trigger] rest@[b]).ip@,
                forall|a: int, b: int| 0 <= a < out@.len() && 0 <= b < rest@.len() ==> (#[trigger] out@[a]).ip@ != (#[trigger] rest@[b]).ip@,
                forall|x: Seq<char>| ddos_last(h, x) >= 0 ==> (exists|a: int| 0 <= a < out@.len() && (#[trigger] out@[a]).ip@ == x) || (exists|a: int| 0 <= a < rest@.len() && (#[trigger] rest@[a]).ip@ == x),
                forall|a: int, b: int| 0 <= a < b < out@.len() ==> !lex_lt((#[trigger] out@[a]).last_seen@, (#[trigger] out@[b]).last_seen@),
                forall|a: int, b: int| 0 <= a < out@.len() && 0 <= b < rest@.len() ==> !lex_lt((#[trigger] out@[a]).last_seen@, (#[trigger] rest@[b]).last_seen@),
            decreases rest@.len(),
        {
            let mut best: usize = 0;
            let mut m: usize = 1;
            proof {
                lemma_lex_irrefl(rest@[0].last_seen@);
            }
            while m < rest.len()
                invariant
                    best < m <= rest@.len(),
                    forall|j: int| 0 <= j < m ==> !lex_lt(rest@[best as int].last_seen@, (#[trigger] rest@[j]).last_seen@),
                decreases rest@.len() - m,
            {
                if text_less(&rest[best].last_seen, &rest[m].last_seen) {
                    proof {
                        assert forall|j: int| 0 <= j < m implies !lex_lt(rest@[m as int].last_seen@, (#[trigger] rest@[j]).last_seen@) by {
                            if lex_lt(rest@[m as int].last_seen@, rest@[j].last_seen@) {
                                lemma_lex_trans(rest@[best as int].last_seen@, rest@[m as int].last_seen@, rest@[j].last_seen@);
                            }
                        }
                    }
                    proof {
                        lemma_lex_irrefl(rest@[m as int].last_seen@);
                    }
                    best = m;
                }
                m = m + 1;
            }
            let ghost r0 = rest@;
            let ghost o0 = out@;
            let g = rest.remove(best);
            out.push(g);
            proof {
                assert forall|a: int| 0 <= a < rest@.len() implies rest@[a] == r0[if a < best { a } else { a + 1 }] by {}
                assert forall|a: int| 0 <= a < out@.len() implies valid_group(h, #[trigger] out@[a]) by {
                    if a < o0.len() { assert(out@[a] == o0[a]); }
                }
                assert forall|a: int| 0 <= a < rest@.len() implies valid_group(h, #[trigger] rest@[a]) by {
                    let a2 = if a < best { a } else { a + 1 };
                    assert(rest@[a] == r0[a2]);
                }
                assert forall|a: int, b: int| 0 <= a < b < out@.len() implies (#[trigger] out@[a]).ip@ != (#[trigger] out@[b]).ip@ by {
                    assert(out@[a] == o0[a]);
                    if b < o0.len() {
                        assert(out@[b] == o0[b]);
                    } else {
                        assert(o0[a].ip@ != r0[best as int].ip@);
                    }
                }
                assert forall|a: int, b: int| 0 <= a < b < rest@.len() implies (#[trigger] rest@[a]).ip@ != (#[trigger] rest@[b]).ip@ by {
                    let a2 = if a < best { a } else { a + 1 };
                    let b2 = if b < best { b } else { b + 1 };
                    assert(r0[a2].ip@ != r0[b2].ip@);
                }
                assert forall|a: int, b: int| 0 <= a < out@.len() && 0 <= b < rest@.len() implies (#[trigger] out@[a]).ip@ != (#[trigger] rest@[b]).ip@ by {
                    let b2 = if b < best { b } else { b + 1 };
                    assert(rest@[b] == r0[b2]);
                    if a < o0.len() {
                        assert(out@[a] == o0[a]);
                    } else {
                        if b2 < best {
                            assert(r0[b2].ip@ != r0[best as int].ip@);
                        } else {
                            assert(r0[best as int].ip@ != r0[b2].ip@);
                        }
                    }
                }
                assert forall|x: Seq<char>| ddos_last(h, x) >= 0 implies (exists|a: int| 0 <= a < out@.len() && (#[trigger] out@[a]).ip@ == x) || (exists|a: int| 0 <= a < rest@.len() && (#[trigger] rest@[a]).ip@ == x) by {
                    if exists|a: int| 0 <= a < o0.len() && (#[trigger] o0[a]).ip@ == x {
                        let a = choose|a: int| 0 <= a < o0.len() && (#[trigger] o0[a]).ip@ == x;
                        assert(out@[a] == o0[a]);
                    } else {
                        let a = choose|a: int| 0 <= a < r0.len() && (#[trigger] r0[a]).ip@ == x;
                        if a == best {
                            assert(out@[o0.len() as int].ip@ == x);
                        } else {
                            let a3 = if a < best { a } else { a - 1 };
                            assert(rest@[a3] == r0[a]);
                        }
                    }
                }
                assert forall|a: int, b: int| 0 <= a < b < out@.len() implies !lex_lt((#[trigger] out@[a]).last_seen@, (#[trigger] out@[b]).last_seen@) by {
                    assert(out@[a] == o0[a]);
                    if b < o0.len() {
                        assert(out@[b] == o0[b]);
                    }
                }
                assert forall|a: int, b: int| 0 <= a < out@.len() && 0 <= b < rest@.len() implies !lex_lt((#[trigger] out@[a]).last_seen@, (#[trigger] rest@[b]).last_seen@) by {
                    let b2 = if b < best { b } else { b + 1 };
                    assert(rest@[b] == r0[b2]);
                    if a < o0.len() {
                        assert(out@[a] == o0[a]);
                    }
                }
            }
        }
        proof {
            assert forall|x: Seq<char>| ddos_last(h, x) >= 0 implies exists|a: int| 0 <= a < out@.len() && (#[trigger] out@[a]).ip@ == x by {
                if !(exists|a: int| 0 <= a < out@.len() && (#[trigger] out@[a]).ip@ == x) {
                    let a = choose|a: int| 0 <= a < rest@.len() && (#[trigger] rest@[a]).ip@ == x;
                }
            }
        }
        out
    }
}

} // verus!
