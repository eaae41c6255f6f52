//! Rule lifecycle: creation, patching, enabling, disabling and removal.
use vstd::prelude::*;
use crate::port_range::{expand_listen_targets, expand_spec, targets_view, AddrError, ListenTarget};
use crate::protocol::ProtocolMode;
use crate::state::{ProxyRule, ProxyState};
use crate::text::{chars_of, push_str, string_from_chars, trim, trimmed};

verus! {

/// Why a rule operation was refused.
#[derive(Clone, Copy, Debug, PartialEq, Eq, Structural)]
pub enum RuleError {
    AddressRequired,
    ListenAddrEmpty,
    TargetAddrEmpty,
    NotFound,
    Addr(AddrError),
}

impl RuleError {
    pub open spec fn text(&self) -> Seq<char> {
        match *self {
            RuleError::AddressRequired => "listen_addr and target_addr are required"@,
            RuleError::ListenAddrEmpty => "listen_addr cannot be empty"@,
            RuleError::TargetAddrEmpty => "target_addr cannot be empty"@,
            RuleError::NotFound => "Rule not found"@,
            RuleError::Addr(e) => e.text(),
        }
    }

    /// Operator-facing text of the error.
    pub fn message(&self) -> (r: String)
        ensures
            r@ == self.text(),
    {
        let mut out: Vec<char> = Vec::new();
        match self {
            RuleError::AddressRequired => push_str(&mut out, "listen_addr and target_addr are required"),
            RuleError::ListenAddrEmpty => push_str(&mut out, "listen_addr cannot be empty"),
            RuleError::TargetAddrEmpty => push_str(&mut out, "target_addr cannot be empty"),
            RuleError::NotFound => push_str(&mut out, "Rule not found"),
            RuleError::Addr(e) => return e.message(),
        }
        string_from_chars(&out)
    }
}

/// Field changes requested for a rule; `None` leaves a field as it is.
#[derive(Clone, Debug)]
pub struct RulePatch {
    pub listen_addr: Option<String>,
    pub target_addr: Option<String>,
    pub enabled: Option<bool>,
    pub protocol: Option<ProtocolMode>,
}

/// Whether a rule with id `id` exists.
pub open spec fn has_rule(rules: Seq<ProxyRule>, id: u64) -> bool {
    exists|k: int| 0 <= k < rules.len() && (#[trigger] rules[k]).id == id
}

/// Position of the first rule with id `id`.
pub open spec fn rule_index(rules: Seq<ProxyRule>, id: u64) -> int {
    choose|k: int|
        0 <= k < rules.len() && (#[trigger] rules[k]).id == id && forall|j: int|
            0 <= j < k ==> (#[trigger] rules[j]).id != id
}

proof fn lemma_first_rule_from(rules: Seq<ProxyRule>, id: u64, k: int)
    requires
        0 <= k < rules.len(),
        rules[k].id == id,
    ensures
        exists|m: int|
            0 <= m < rules.len() && (#[trigger] rules[m]).id == id && forall|j: int|
                0 <= j < m ==> (#[trigger] rules[j]).id != id,
    decreases k,
{
    if exists|j: int| 0 <= j < k && (#[trigger] rules[j]).id == id {
        let j = choose|j: int| 0 <= j < k && (#[trigger] rules[j]).id == id;
        lemma_first_rule_from(rules, id, j);
    } else {
        assert(forall|j: int| 0 <= j < k ==> (#[trigger] rules[j]).id != id);
    }
}

/// Where a rule with id `id` exists, `rule_index` is the position of the first such rule.
pub proof fn lemma_rule_index(rules: Seq<ProxyRule>, id: u64)
    requires
        has_rule(rules, id),
    ensures
        0 <= rule_index(rules, id) < rules.len(),
        rules[rule_index(rules, id)].id == id,
        forall|j: int| 0 <= j < rule_index(rules, id) ==> (#[trigger] rules[j]).id != id,
{
    let k = choose|k: int| 0 <= k < rules.len() && (#[trigger] rules[k]).id == id;
    lemma_first_rule_from(rules, id, k);
}

/// `r` with the patch's enabled flag and protocol applied; the addresses are given by
/// `patched_listen` and `patched_target`.
pub open spec fn patched(r: ProxyRule, p: RulePatch) -> ProxyRule {
    ProxyRule {
        id: r.id,
        listen_addr: r.listen_addr,
        target_addr: r.target_addr,
        enabled: match p.enabled {
            Some(e) => e,
            None => r.enabled,
        },
        created_at: r.created_at,
        protocol: match p.protocol {
            Some(m) => m,
            None => r.protocol,
        },
    }
}

/// A requested address that is blank once trimmed.
pub open spec fn blank_patch(a: Option<String>) -> bool {
    match a {
        Some(x) => trim(x@).len() == 0,
        None => false,
    }
}

/// The listen address after the patch.
pub open spec fn patched_listen(r: ProxyRule, p: RulePatch) -> Seq<char> {
    match p.listen_addr {
        Some(a) => trim(a@),
        None => r.listen_addr@,
    }
}

/// The target address after the patch.
pub open spec fn patched_target(r: ProxyRule, p: RulePatch) -> Seq<char> {
    match p.target_addr {
        Some(a) => trim(a@),
        None => r.target_addr@,
    }
}

impl ProxyState {
    /// Everything but the rules is equal.
    pub open spec fn same_but_rules(&self, o: &Self) -> bool {
        &&& self.blocklist == o.blocklist
        &&& self.port_blocklist == o.port_blocklist
        &&& self.allowlist == o.allowlist
        &&& self.allowlist_ports == o.allowlist_ports
        &&& self.allowlist_enabled == o.allowlist_enabled
        &&& self.geo_blocklist == o.geo_blocklist
        &&& self.geo_port_blocklist == o.geo_port_blocklist
        &&& self.rate_limit == o.rate_limit
        &&& self.history == o.history
        &&& self.active == o.active
        &&& self.active_by_ip == o.active_by_ip
        &&& self.rate_windows == o.rate_windows
        &&& self.next_conn_id == o.next_conn_id
    }

    fn find_rule(&self, id: u64) -> (r: Option<usize>)
        ensures
            match r {
                Some(k) => k < self.rules@.len() && has_rule(self.rules@, id) && rule_index(
                    self.rules@,
                    id,
                ) == k,
                None => !has_rule(self.rules@, id),
            },
    {
        let mut i: usize = 0;
        while i < self.rules.len()
            invariant
                i <= self.rules@.len(),
                forall|k: int| 0 <= k < i ==> (#[trigger] self.rules@[k]).id != id,
            decreases self.rules@.len() - i,
        {
            if self.rules[i].id == id {
                proof {
                    let c = rule_index(self.rules@, id);
                    assert(0 <= i < self.rules@.len() && self.rules@[i as int].id == id && forall|j: int|
                        0 <= j < i ==> (#[trigger] self.rules@[j]).id != id);
                    if c < i {
                        assert(self.rules@[c].id != id);
                    } else if c > i {
                        assert(self.rules@[i as int].id != id);
                    }
                }
                return Some(i);
            }
            i = i + 1;
        }
        None
    }

    /// Creates a rule under the next rule id, stamped `now`, with trimmed addresses; it is
    /// enabled unless `enabled` says otherwise, and relays TCP unless `protocol` says
    /// otherwise.
    pub fn create_rule(
        &mut self,
        listen_addr: &str,
        target_addr: &str,
        enabled: Option<bool>,
        protocol: Option<ProtocolMode>,
        now: &String,
    ) -> (r: Result<ProxyRule, RuleError>)
        requires
            old(self).wf(),
            old(self).next_rule_id < u64::MAX,
        ensures
            final(self).wf(),
            final(self).same_but_rules(old(self)),
            trim(listen_addr@).len() == 0 || trim(target_addr@).len() == 0 ==> {
                &&& r == Err::<ProxyRule, RuleError>(RuleError::AddressRequired)
                &&& final(self).rules == old(self).rules
                &&& final(self).next_rule_id == old(self).next_rule_id
            },
            trim(listen_addr@).len() > 0 && trim(target_addr@).len() > 0 && expand_spec(
                trim(listen_addr@),
                trim(target_addr@),
            ) is Err ==> {
                &&& r == Err::<ProxyRule, RuleError>(
                    RuleError::Addr(expand_spec(trim(listen_addr@), trim(target_addr@))->Err_0),
                )
                &&& final(self).rules == old(self).rules
                &&& final(self).next_rule_id == old(self).next_rule_id
            },
            trim(listen_addr@).len() > 0 && trim(target_addr@).len() > 0 && expand_spec(
                trim(listen_addr@),
                trim(target_addr@),
            ) is Ok ==> {
                &&& r is Ok
                &&& r->Ok_0.id == old(self).next_rule_id
                &&& r->Ok_0.listen_addr@ == trim(listen_addr@)
                &&& r->Ok_0.target_addr@ == trim(target_addr@)
                &&& r->Ok_0.enabled == match enabled {
                    Some(e) => e,
                    None => true,
                }
                &&& r->Ok_0.created_at == *now
                &&& r->Ok_0.protocol == match protocol {
                    Some(m) => m,
                    None => ProtocolMode::Tcp,
                }
                &&& final(self).rules@ == old(self).rules@.push(r->Ok_0)
                &&& final(self).next_rule_id == old(self).next_rule_id + 1
            },
    {
        let listen = trimmed(&chars_of(listen_addr));
        let target = trimmed(&chars_of(target_addr));
        if listen.len() == 0 || target.len() == 0 {
            return Err(RuleError::AddressRequired);
        }
        let listen_text = string_from_chars(&listen);
        let target_text = string_from_chars(&target);
        match expand_listen_targets(listen_text.as_str(), target_text.as_str()) {
            Ok(_) => {},
            Err(e) => return Err(RuleError::Addr(e)),
        }
        let rule = ProxyRule {
            id: self.next_rule_id,
            listen_addr: listen_text,
            target_addr: target_text,
            enabled: match enabled {
                Some(e) => e,
                None => true,
            },
            created_at: now.clone(),
            protocol: match protocol {
                Some(m) => m,
                None => ProtocolMode::Tcp,
            },
        };
        self.next_rule_id = self.next_rule_id + 1;
        self.rules.push(rule.clone());
        proof {
            assert forall|i: int| 0 <= i < self.rules@.len() implies (#[trigger] self.rules@[i]).id
                < self.next_rule_id by {
                if i < self.rules@.len() - 1 {
                    assert(self.rules@[i] == old(self).rules@[i]);
                }
            }
        }
        Ok(rule)
    }

    /// Sets the enabled flag of rule `id` and returns the rule as it now stands.
    pub fn set_rule_enabled(&mut self, id: u64, enabled: bool) -> (r: Result<ProxyRule, RuleError>)
        requires
            old(self).wf(),
        ensures
            final(self).wf(),
            final(self).same_but_rules(old(self)),
            final(self).next_rule_id == old(self).next_rule_id,
            !has_rule(old(self).rules@, id) ==> r == Err::<ProxyRule, RuleError>(
                RuleError::NotFound,
            ) && final(self).rules == old(self).rules,
            has_rule(old(self).rules@, id) ==> {
                let k = rule_index(old(self).rules@, id);
                &&& r == Ok::<ProxyRule, RuleError>(ProxyRule { enabled, ..old(self).rules@[k] })
                &&& final(self).rules@ == old(self).rules@.update(k, r->Ok_0)
            },
    {
        let k = match self.find_rule(id) {
            Some(k) => k,
            None => return Err(RuleError::NotFound),
        };
        let mut rule = self.rules[k].clone();
        rule.enabled = enabled;
        self.rules.set(k, rule.clone());
        proof {
            assert forall|i: int| 0 <= i < self.rules@.len() implies (#[trigger] self.rules@[i]).id
                < self.next_rule_id by {
                assert(self.rules@[i].id == old(self).rules@[i].id);
            }
        }
        Ok(rule)
    }

    /// Applies `patch` to rule `id`. Returns the patched rule and whether it was enabled
    /// before, so that its listeners can be restarted.
    pub fn update_rule(&mut self, id: u64, patch: &RulePatch) -> (r: Result<
        (ProxyRule, bool),
        RuleError,
    >)
        requires
            old(self).wf(),
        ensures
            final(self).wf(),
            final(self).same_but_rules(old(self)),
            final(self).next_rule_id == old(self).next_rule_id,
            r is Err ==> final(self).rules == old(self).rules,
            blank_patch(patch.listen_addr) ==> r == Err::<(ProxyRule, bool), RuleError>(
                RuleError::ListenAddrEmpty,
            ),
            !blank_patch(patch.listen_addr) && blank_patch(patch.target_addr) ==> r == Err::<
                (ProxyRule, bool),
                RuleError,
            >(RuleError::TargetAddrEmpty),
            !blank_patch(patch.listen_addr) && !blank_patch(patch.target_addr) && !has_rule(
                old(self).rules@,
                id,
            ) ==> r == Err::<(ProxyRule, bool), RuleError>(RuleError::NotFound),
            !blank_patch(patch.listen_addr) && !blank_patch(patch.target_addr) && has_rule(
                old(self).rules@,
                id,
            ) ==> {
                let k = rule_index(old(self).rules@, id);
                let old_rule = old(self).rules@[k];
                let x = expand_spec(patched_listen(old_rule, *patch), patched_target(old_rule, *patch));
                &&& x is Err ==> r == Err::<(ProxyRule, bool), RuleError>(RuleError::Addr(x->Err_0))
                &&& x is Ok ==> {
                    let new_rule = r->Ok_0.0;
                    &&& r is Ok
                    &&& r->Ok_0.1 == old_rule.enabled
                    &&& new_rule.id == old_rule.id
                    &&& new_rule.listen_addr@ == patched_listen(old_rule, *patch)
                    &&& new_rule.target_addr@ == patched_target(old_rule, *patch)
                    &&& new_rule.enabled == patched(old_rule, *patch).enabled
                    &&& new_rule.protocol == patched(old_rule, *patch).protocol
                    &&& new_rule.created_at == old_rule.created_at
                    &&& final(self).rules@ == old(self).rules@.update(k, new_rule)
                }
            },
    {
        let listen = match &patch.listen_addr {
            Some(a) => {
                let t = trimmed(&chars_of(a.as_str()));
                if t.len() == 0 {
                    return Err(RuleError::ListenAddrEmpty);
                }
                Some(t)
            },
            None => None,
        };
        let target = match &patch.target_addr {
            Some(a) => {
                let t = trimmed(&chars_of(a.as_str()));
                if t.len() == 0 {
                    return Err(RuleError::TargetAddrEmpty);
                }
                Some(t)
            },
            None => None,
        };
        let k = match self.find_rule(id) {
            Some(k) => k,
            None => return Err(RuleError::NotFound),
        };
        let mut rule = self.rules[k].clone();
        let was_enabled = rule.enabled;
        match listen {
            Some(t) => {
                rule.listen_addr = string_from_chars(&t);
            },
            None => {},
        }
        match target {
            Some(t) => {
                rule.target_addr = string_from_chars(&t);
            },
            None => {},
        }
        match patch.enabled {
            Some(e) => {
                rule.enabled = e;
            },
            None => {},
        }
        match patch.protocol {
            Some(m) => {
                rule.protocol = m;
            },
            None => {},
        }
        match rule.listen_targets() {
            Ok(_) => {},
            Err(e) => return Err(RuleError::Addr(e)),
        }
        self.rules.set(k, rule.clone());
        proof {
            assert forall|i: int| 0 <= i < self.rules@.len() implies (#[trigger] self.rules@[i]).id
                < self.next_rule_id by {
                assert(self.rules@[i].id == old(self).rules@[i].id);
            }
        }
        Ok((rule, was_enabled))
    }

    /// Forces rule `id` off after its listeners failed to start.
    pub fn disable_rule_after_start_failure(&mut self, id: u64)
        requires
            old(self).wf(),
        ensures
            final(self).wf(),
            final(self).same_but_rules(old(self)),
            final(self).next_rule_id == old(self).next_rule_id,
            !has_rule(old(self).rules@, id) ==> final(self).rules == old(self).rules,
            has_rule(old(self).rules@, id) ==> {
                let k = rule_index(old(self).rules@, id);
                final(self).rules@ == old(self).rules@.update(
                    k,
                    ProxyRule { enabled: false, ..old(self).rules@[k] },
                )
            },
    {
        let _ = self.set_rule_enabled(id, false);
    }

    /// Removes rule `id` and returns it.
    pub fn remove_rule(&mut self, id: u64) -> (r: Result<ProxyRule, RuleError>)
        requires
            old(self).wf(),
        ensures
            final(self).wf(),
            final(self).same_but_rules(old(self)),
            final(self).next_rule_id == old(self).next_rule_id,
            !has_rule(old(self).rules@, id) ==> r == Err::<ProxyRule, RuleError>(
                RuleError::NotFound,
            ) && final(self).rules == old(self).rules,
            has_rule(old(self).rules@, id) ==> {
                let k = rule_index(old(self).rules@, id);
                &&& r == Ok::<ProxyRule, RuleError>(old(self).rules@[k])
                &&& final(self).rules@ == old(self).rules@.remove(k)
            },
    {
        let k = match self.find_rule(id) {
            Some(k) => k,
            None => return Err(RuleError::NotFound),
        };
        let removed = self.rules.remove(k);
        proof {
            assert forall|i: int| 0 <= i < self.rules@.len() implies (#[trigger] self.rules@[i]).id
                < self.next_rule_id by {
                let i2 = if i < k { i } else { i + 1 };
                assert(self.rules@[i] == old(self).rules@[i2]);
            }
        }
        Ok(removed)
    }

    /// The rule with id `id`.
    pub fn get_rule(&self, id: u64) -> (r: Option<ProxyRule>)
        ensures
            !has_rule(self.rules@, id) ==> r is None,
            has_rule(self.rules@, id) ==> r == Some(self.rules@[rule_index(self.rules@, id)]),
    {
        match self.find_rule(id) {
            Some(k) => Some(self.rules[k].clone()),
            None => None,
        }
    }
}

impl ProxyRule {
    /// The listeners this rule implies when enabled.
    pub fn listen_targets(&self) -> (r: Result<Vec<ListenTarget>, AddrError>)
        ensures
            match r {
                Ok(v) => expand_spec(self.listen_addr@, self.target_addr@) == Ok::<_, AddrError>(
                    targets_view(v@),
                ),
                Err(e) => expand_spec(self.listen_addr@, self.target_addr@) == Err::<
                    Seq<(Seq<char>, u16, Seq<char>)>,
                    AddrError,
                >(e),
            },
    {
        expand_listen_targets(self.listen_addr.as_str(), self.target_addr.as_str())
    }
}

} // verus!
