//! Per-client pseudo-sessions of a UDP listener and their idle timeout.
use vstd::prelude::*;

verus! {

/// Silence after which a UDP session is retired, in milliseconds.
pub const UDP_IDLE_TIMEOUT_MS: u64 = 60000;

/// Period of the idle check, in milliseconds.
pub const UDP_IDLE_TICK_MS: u64 = 5000;

/// Largest UDP payload relayed in one datagram.
pub const UDP_BUFFER_SIZE: usize = 65507;

/// One client's session: the connection it was admitted as, when it last saw traffic, and
/// the bytes relayed each way.
#[derive(Debug)]
pub struct Session {
    pub client: String,
    pub conn_id: u64,
    pub last_seen: u64,
    pub bytes_up: u64,
    pub bytes_down: u64,
}

impl Clone for Session {
    fn clone(&self) -> (r: Self)
        ensures
            r == *self,
    {
        Session {
            client: self.client.clone(),
            conn_id: self.conn_id,
            last_seen: self.last_seen,
            bytes_up: self.bytes_up,
            bytes_down: self.bytes_down,
        }
    }
}

/// The sessions of one listener, keyed by client source address.
pub struct SessionTable {
    pub sessions: Vec<Session>,
}

pub open spec fn has_client(v: Seq<Session>, c: Seq<char>) -> bool {
    exists|i: int| 0 <= i < v.len() && (#[trigger] v[i]).client@ == c
}

/// The session of client `c`.
pub open spec fn session_of(v: Seq<Session>, c: Seq<char>) -> Session {
    v[choose|i: int| 0 <= i < v.len() && (#[trigger] v[i]).client@ == c]
}

/// No traffic for longer than the idle timeout.
pub open spec fn idle_at(s: Session, now: u64) -> bool {
    now > s.last_seen && now - s.last_seen > UDP_IDLE_TIMEOUT_MS
}

/// `a + b`, or `u64::MAX` when that does not fit.
pub open spec fn sat_add(a: u64, b: u64) -> u64 {
    if a + b > u64::MAX {
        u64::MAX
    } else {
        (a + b) as u64
    }
}

fn saturating_add(a: u64, b: u64) -> (r: u64)
    ensures
        r == sat_add(a, b),
{
    if a > u64::MAX - b {
        u64::MAX
    } else {
        a + b
    }
}

impl SessionTable {
    /// One session per client.
    pub open spec fn wf(&self) -> bool {
        forall|i: int, j: int|
            0 <= i < j < self.sessions@.len() ==> (#[trigger] self.sessions@[i]).client@
                != (#[trigger] self.sessions@[j]).client@
    }

    pub open spec fn has(&self, c: Seq<char>) -> bool {
        has_client(self.sessions@, c)
    }

    pub open spec fn get(&self, c: Seq<char>) -> Session {
        session_of(self.sessions@, c)
    }

    /// The sessions other than that of `c` are those of `o`.
    pub open spec fn others_same(&self, o: &Self, c: Seq<char>) -> bool {
        forall|x: Seq<char>|
            x != c ==> (#[trigger] self.has(x) == o.has(x)) && (self.has(x) ==> self.get(x)
                == o.get(x))
    }

    pub fn new() -> (r: Self)
        ensures
            r.wf(),
            forall|c: Seq<char>| !(#[trigger] r.has(c)),
    {
        SessionTable { sessions: Vec::new() }
    }

    fn find(&self, client: &String) -> (r: Option<usize>)
        requires
            self.wf(),
        ensures
            match r {
                Some(i) => i < self.sessions@.len() && self.sessions@[i as int].client@ == client@
                    && self.has(client@) && self.get(client@) == self.sessions@[i as int],
                None => !self.has(client@),
            },
    {
        let mut i: usize = 0;
        while i < self.sessions.len()
            invariant
                self.wf(),
                i <= self.sessions@.len(),
                forall|k: int| 0 <= k < i ==> (#[trigger] self.sessions@[k]).client@ != client@,
            decreases self.sessions@.len() - i,
        {
            if self.sessions[i].client == *client {
                proof {
                    let c = choose|k: int|
                        0 <= k < self.sessions@.len() && (#[trigger] self.sessions@[k]).client@
                            == client@;
                    if c != i {
                        if c < i {
                            assert(self.sessions@[c].client@ != self.sessions@[i as int].client@);
                        } else {
                            assert(self.sessions@[i as int].client@ != self.sessions@[c].client@);
                        }
                    }
                }
                return Some(i);
            }
            i = i + 1;
        }
        None
    }

    /// Whether `client` has a session.
    pub fn contains(&self, client: &String) -> (r: bool)
        requires
            self.wf(),
        ensures
            r == self.has(client@),
    {
        self.find(client).is_some()
    }

    /// Opens the session of an admitted client, seen at `now`. When a racing admission
    /// already opened one, that session stays and `false` is returned.
    pub fn insert(&mut self, client: &String, conn_id: u64, now: u64) -> (r: bool)
        requires
            old(self).wf(),
        ensures
            final(self).wf(),
            r == !old(self).has(client@),
            final(self).has(client@),
            r ==> final(self).get(client@) == (Session {
                client: *client,
                conn_id,
                last_seen: now,
                bytes_up: 0,
                bytes_down: 0,
            }),
            !r ==> final(self).get(client@) == old(self).get(client@),
            final(self).others_same(old(self), client@),
    {
        if self.find(client).is_some() {
            return false;
        }
        let s = Session {
            client: client.clone(),
            conn_id,
            last_seen: now,
            bytes_up: 0,
            bytes_down: 0,
        };
        let ghost before = self.sessions@;
        self.sessions.push(s);
        proof {
            let v = self.sessions@;
            assert forall|i: int, j: int| 0 <= i < j < v.len() implies (#[trigger] v[i]).client@
                != (#[trigger] v[j]).client@ by {
                if j < before.len() {
                    assert(before[i].client@ != before[j].client@);
                } else {
                    assert(v[i] == before[i]);
                }
            }
            assert(v[before.len() as int].client@ == client@);
            let c = choose|k: int| 0 <= k < v.len() && (#[trigger] v[k]).client@ == client@;
            if c < before.len() {
                assert(v[c] == before[c]);
            }
            assert forall|x: Seq<char>| x != client@ implies (#[trigger] self.has(x) == old(self).has(x))
                && (self.has(x) ==> self.get(x) == old(self).get(x)) by {
                if old(self).has(x) {
                    let k = choose|k: int| 0 <= k < before.len() && (#[trigger] before[k]).client@ == x;
                    assert(v[k] == before[k]);
                }
                if self.has(x) {
                    let k = choose|k: int| 0 <= k < v.len() && (#[trigger] v[k]).client@ == x;
                    assert(k < before.len());
                    assert(v[k] == before[k]);
                    assert(old(self).has(x));
                }
            }
        }
        true
    }

    fn replace_at(&mut self, i: usize, s: Session)
        requires
            old(self).wf(),
            i < old(self).sessions@.len(),
            s.client@ == old(self).sessions@[i as int].client@,
        ensures
            final(self).wf(),
            final(self).has(s.client@),
            final(self).get(s.client@) == s,
            final(self).others_same(old(self), s.client@),
    {
        let ghost before = self.sessions@;
        self.sessions.set(i, s);
        proof {
            let v = self.sessions@;
            assert forall|a: int, b: int| 0 <= a < b < v.len() implies (#[trigger] v[a]).client@
                != (#[trigger] v[b]).client@ by {
                assert(before[a].client@ != before[b].client@);
            }
            assert(v[i as int].client@ == s.client@);
            let c = choose|k: int| 0 <= k < v.len() && (#[trigger] v[k]).client@ == s.client@;
            if c != i {
                if c < i {
                    assert(v[c].client@ != v[i as int].client@);
                } else {
                    assert(v[i as int].client@ != v[c].client@);
                }
            }
            assert forall|x: Seq<char>| x != s.client@ implies (#[trigger] self.has(x) == old(self).has(x))
                && (self.has(x) ==> self.get(x) == old(self).get(x)) by {
                if old(self).has(x) {
                    let k = choose|k: int| 0 <= k < before.len() && (#[trigger] before[k]).client@ == x;
                    assert(v[k] == before[k]);
                }
                if self.has(x) {
                    let k = choose|k: int| 0 <= k < v.len() && (#[trigger] v[k]).client@ == x;
                    assert(v[k] == before[k]);
                    assert(old(self).has(x));
                    let k2 = choose|k: int| 0 <= k < before.len() && (#[trigger] before[k]).client@ == x;
                    if k != k2 {
                        if k < k2 {
                            assert(before[k].client@ != before[k2].client@);
                        } else {
                            assert(before[k2].client@ != before[k].client@);
                        }
                    }
                }
            }
        }
    }

    /// Counts a datagram of `len` bytes from the client, seen at `now`. Returns the session's
    /// connection id, or `None` when the client has no session.
    pub fn record_upstream(&mut self, client: &String, len: u64, now: u64) -> (r: Option<u64>)
        requires
            old(self).wf(),
        ensures
            final(self).wf(),
            !old(self).has(client@) ==> r is None && *final(self) == *old(self),
            old(self).has(client@) ==> {
                let s = old(self).get(client@);
                &&& r == Some(s.conn_id)
                &&& final(self).has(client@)
                &&& final(self).get(client@) == (Session {
                    last_seen: now,
                    bytes_up: sat_add(s.bytes_up, len),
                    ..s
                })
                &&& final(self).others_same(old(self), client@)
            },
    {
        let i = match self.find(client) {
            Some(i) => i,
            None => return None,
        };
        let mut s = self.sessions[i].clone();
        s.bytes_up = saturating_add(s.bytes_up, len);
        s.last_seen = now;
        let id = s.conn_id;
        self.replace_at(i, s);
        Some(id)
    }

    /// Counts a reply of `len` bytes relayed back to the client, seen at `now`.
    pub fn record_downstream(&mut self, client: &String, len: u64, now: u64)
        requires
            old(self).wf(),
        ensures
            final(self).wf(),
            !old(self).has(client@) ==> *final(self) == *old(self),
            old(self).has(client@) ==> {
                let s = old(self).get(client@);
                &&& final(self).has(client@)
                &&& final(self).get(client@) == (Session {
                    last_seen: now,
                    bytes_down: sat_add(s.bytes_down, len),
                    ..s
                })
                &&& final(self).others_same(old(self), client@)
            },
    {
        let i = match self.find(client) {
            Some(i) => i,
            None => return,
        };
        let mut s = self.sessions[i].clone();
        s.bytes_down = saturating_add(s.bytes_down, len);
        s.last_seen = now;
        self.replace_at(i, s);
    }

    /// Whether the session of `client` is over at `now`: it is gone, or it has been silent
    /// for longer than the idle timeout.
    pub fn is_idle(&self, client: &String, now: u64) -> (r: bool)
        requires
            self.wf(),
        ensures
            r == (!self.has(client@) || idle_at(self.get(client@), now)),
    {
        match self.find(client) {
            Some(i) => {
                let seen = self.sessions[i].last_seen;
                now > seen && now - seen > UDP_IDLE_TIMEOUT_MS
            },
            None => true,
        }
    }

    /// Takes the session of `client` out of the table.
    pub fn remove(&mut self, client: &String) -> (r: Option<Session>)
        requires
            old(self).wf(),
        ensures
            final(self).wf(),
            !final(self).has(client@),
            final(self).others_same(old(self), client@),
            r == if old(self).has(client@) {
                Some(old(self).get(client@))
            } else {
                None::<Session>
            },
    {
        let i = match self.find(client) {
            Some(i) => i,
            None => return None,
        };
        let ghost before = self.sessions@;
        let s = self.sessions.remove(i);
        proof {
            let v = self.sessions@;
            assert forall|a: int, b: int| 0 <= a < b < v.len() implies (#[trigger] v[a]).client@
                != (#[trigger] v[b]).client@ by {
                let a2 = if a < i { a } else { a + 1 };
                let b2 = if b < i { b } else { b + 1 };
                assert(before[a2].client@ != before[b2].client@);
            }
            assert forall|k: int| 0 <= k < v.len() implies (#[trigger] v[k]).client@ != client@ by {
                let k2 = if k < i { k } else { k + 1 };
                if k2 < i {
                    assert(before[k2].client@ != before[i as int].client@);
                } else {
                    assert(before[i as int].client@ != before[k2].client@);
                }
            }
            assert forall|x: Seq<char>| x != client@ implies (#[trigger] self.has(x) == old(self).has(x))
                && (self.has(x) ==> self.get(x) == old(self).get(x)) by {
                if old(self).has(x) {
                    let k = choose|k: int| 0 <= k < before.len() && (#[trigger] before[k]).client@ == x;
                    assert(k != i);
                    let k3 = if k < i { k } else { k - 1 };
                    assert(v[k3] == before[k]);
                }
                if self.has(x) {
                    let k = choose|k: int| 0 <= k < v.len() && (#[trigger] v[k]).client@ == x;
                    let k2 = if k < i { k } else { k + 1 };
                    assert(v[k] == before[k2]);
                    assert(old(self).has(x));
                    let k4 = choose|m: int| 0 <= m < before.len() && (#[trigger] before[m]).client@ == x;
                    if k4 != k2 {
                        if k4 < k2 {
                            assert(before[k4].client@ != before[k2].client@);
                        } else {
                            assert(before[k2].client@ != before[k4].client@);
                        }
                    }
                }
            }
        }
        Some(s)
    }

    /// The idle check of one tick: retires the session of `client` when it is over at `now`
    /// and returns it so that its connection can be finalized.
    pub fn reap_if_idle(&mut self, client: &String, now: u64) -> (r: Option<Session>)
        requires
            old(self).wf(),
        ensures
            final(self).wf(),
            old(self).has(client@) && idle_at(old(self).get(client@), now) ==> {
                &&& r == Some(old(self).get(client@))
                &&& !final(self).has(client@)
                &&& final(self).others_same(old(self), client@)
            },
            !(old(self).has(client@) && idle_at(old(self).get(client@), now)) ==> {
                &&& r is None
                &&& *final(self) == *old(self)
            },
    {
        if self.contains(client) && self.is_idle(client, now) {
            self.remove(client)
        } else {
            None
        }
    }
}

} // verus!
