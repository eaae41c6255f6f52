use proxypanel::policy::PolicyError;
use proxypanel::geo::{CountryError, GeoBlockQuery, GeoBlockRequest};
use proxypanel::protocol::ProtocolMode;
use proxypanel::relay::{proxy_error, target_connect_failed, udp_bind_failed, PumpProgress};
use proxypanel::rules::{RuleError, RulePatch};
use proxypanel::session::SessionTable;
use proxypanel::snapshot::PersistedState;
use proxypanel::network::{in_network_v4, in_network_v6};
use proxypanel::port_range::AddrError;
use proxypanel::state::{PortEntry, ProxyState, RateLimitConfig};

fn s(v: &str) -> String {
    v.to_string()
}

#[test]
fn rules_are_created_trimmed_and_numbered() {
    let mut st = ProxyState::new();
    let r1 = st.create_rule(" 0.0.0.0:7000 ", "127.0.0.1:7001", None, None, &s("now")).unwrap();
    assert_eq!(r1.id, 1);
    assert_eq!(r1.listen_addr, "0.0.0.0:7000");
    assert!(r1.enabled);
    assert_eq!(r1.protocol, ProtocolMode::Tcp);
    assert_eq!(r1.created_at, "now");
    let r2 = st.create_rule("a:1", "b:2", Some(false), Some(ProtocolMode::Udp), &s("now")).unwrap();
    assert_eq!(r2.id, 2);
    assert!(!r2.enabled);
    let err = st.create_rule("  ", "b:2", None, None, &s("now")).unwrap_err();
    assert_eq!(err, RuleError::AddressRequired);
    assert_eq!(err.message(), "listen_addr and target_addr are required");
    assert_eq!(st.rules().len(), 2);
}

#[test]
fn rule_range_targets() {
    let mut st = ProxyState::new();
    let r = st.create_rule("0.0.0.0:9000-9002", "10.0.0.5:9000-9002", None, None, &s("t")).unwrap();
    let targets = r.listen_targets().unwrap();
    assert_eq!(targets.len(), 3);
    assert_eq!(targets[1].target_addr, "10.0.0.5:9001");
    let err = st.create_rule("0.0.0.0:9000-9002", "10.0.0.5:9000-9001", None, None, &s("t")).unwrap_err();
    assert_eq!(err, RuleError::Addr(AddrError::RangeMismatch { listen: 3, target: 2 }));
    assert!(err.message().contains("Port range mismatch"));
    assert_eq!(st.rules().len(), 1);
    assert_eq!(st.next_rule_id, 2);
    assert_eq!(st.create_rule("h:0", "t:1", None, None, &s("t")).unwrap_err(), RuleError::Addr(AddrError::ZeroPort));
}

#[test]
fn updates_that_cannot_expand_are_refused() {
    let mut st = ProxyState::new();
    let r = st.create_rule("0.0.0.0:9000-9002", "10.0.0.5:9000", None, None, &s("t")).unwrap();
    let patch = RulePatch { listen_addr: None, target_addr: Some(s("10.0.0.5:9000-9001")), enabled: None, protocol: None };
    let err = st.update_rule(r.id, &patch).unwrap_err();
    assert_eq!(err, RuleError::Addr(AddrError::RangeMismatch { listen: 3, target: 2 }));
    assert_eq!(st.get_rule(r.id).unwrap().target_addr, "10.0.0.5:9000");
    let none = RulePatch { listen_addr: None, target_addr: None, enabled: None, protocol: None };
    assert_eq!(st.update_rule(42, &none).unwrap_err(), RuleError::NotFound);
}

#[test]
fn loading_removes_repeats_and_raises_limits() {
    let p = PersistedState {
        rules: Vec::new(),
        blocklist: vec![s("1.1.1.1"), s("1.1.1.1"), s("2.2.2.2")],
        port_blocklist: vec![
            PortEntry { ip: s("3.3.3.3"), port: 80 },
            PortEntry { ip: s("3.3.3.3"), port: 80 },
        ],
        allowlist: Vec::new(),
        allowlist_ports: Vec::new(),
        allowlist_enabled: false,
        geo_blocklist: vec![s("de"), s("DE")],
        geo_port_blocklist: Vec::new(),
        history: Vec::new(),
        rate_limit: RateLimitConfig { max_new_connections_per_minute: 0, max_concurrent_connections_per_ip: 5, max_concurrent_total: 0 },
    };
    let st = ProxyState::from_persisted(p).unwrap();
    assert_eq!(st.blocklist, vec![s("1.1.1.1"), s("2.2.2.2")]);
    assert_eq!(st.port_blocklist.len(), 1);
    assert_eq!(st.geo_blocklist, vec![s("DE")]);
    assert_eq!(st.rate_limit(), RateLimitConfig { max_new_connections_per_minute: 1, max_concurrent_connections_per_ip: 5, max_concurrent_total: 1 });
}

#[test]
fn ending_a_rules_connections() {
    let mut st = ProxyState::new();
    let a = st.create_rule("0.0.0.0:7000", "127.0.0.1:7001", None, None, &s("t")).unwrap();
    let b = st.create_rule("0.0.0.0:8000", "127.0.0.1:8001", None, None, &s("t")).unwrap();
    st.register_connection(a.id, &s("1.1.1.1"), Some(7000), &None, 0, &s("t")).unwrap();
    let kept = st.register_connection(b.id, &s("1.1.1.1"), Some(8000), &None, 0, &s("t")).unwrap();
    st.register_connection(a.id, &s("2.2.2.2"), Some(7000), &None, 0, &s("t")).unwrap();
    st.set_rule_enabled(a.id, false).unwrap();
    st.end_rule_connections(a.id, &s("Rule stopped"), &s("t2"));
    let active = st.active_connections();
    assert_eq!(active.len(), 1);
    assert_eq!(active[0].conn_id, kept);
    assert_eq!(st.active_count(&s("1.1.1.1")), 1);
    assert_eq!(st.history().len(), 2);
    assert_eq!(st.history()[0].reason.as_deref(), Some("Rule stopped"));
}

#[test]
fn cidr_prefixes() {
    let net = u32::from_be_bytes([10, 250, 0, 0]);
    assert!(in_network_v4(u32::from_be_bytes([10, 250, 1, 7]), net, 16));
    assert!(!in_network_v4(u32::from_be_bytes([10, 251, 1, 7]), net, 16));
    assert!(in_network_v4(1, 2, 0));
    assert!(in_network_v4(5, 5, 32));
    assert!(!in_network_v4(5, 6, 32));
    assert!(in_network_v6(0xfe80u128 << 112 | 1, 0xfe80u128 << 112, 64));
    assert!(!in_network_v6(0xfe81u128 << 112, 0xfe80u128 << 112, 16));
}

#[test]
fn disabling_and_enabling_rules() {
    let mut st = ProxyState::new();
    let r = st.create_rule("a:1", "b:2", None, None, &s("t")).unwrap();
    let off = st.set_rule_enabled(r.id, false).unwrap();
    assert!(!off.enabled);
    assert!(!st.get_rule(r.id).unwrap().enabled);
    assert!(st.set_rule_enabled(r.id, true).unwrap().enabled);
    st.disable_rule_after_start_failure(r.id);
    assert!(!st.get_rule(r.id).unwrap().enabled);
    assert_eq!(st.set_rule_enabled(99, true).unwrap_err(), RuleError::NotFound);
    assert_eq!(RuleError::NotFound.message(), "Rule not found");
}

#[test]
fn updating_and_removing_rules() {
    let mut st = ProxyState::new();
    let r = st.create_rule("a:1", "b:2", None, None, &s("t")).unwrap();
    let patch = RulePatch { listen_addr: Some(s(" c:3 ")), target_addr: None, enabled: Some(false), protocol: Some(ProtocolMode::Both) };
    let (u, was) = st.update_rule(r.id, &patch).unwrap();
    assert!(was);
    assert_eq!(u.listen_addr, "c:3");
    assert_eq!(u.target_addr, "b:2");
    assert!(!u.enabled);
    assert_eq!(u.protocol, ProtocolMode::Both);
    let bad = RulePatch { listen_addr: Some(s(" ")), target_addr: None, enabled: None, protocol: None };
    assert_eq!(st.update_rule(r.id, &bad).unwrap_err(), RuleError::ListenAddrEmpty);
    let bad = RulePatch { listen_addr: None, target_addr: Some(s("")), enabled: None, protocol: None };
    assert_eq!(st.update_rule(r.id, &bad).unwrap_err(), RuleError::TargetAddrEmpty);
    let none = RulePatch { listen_addr: None, target_addr: None, enabled: None, protocol: None };
    assert_eq!(st.update_rule(7, &none).unwrap_err(), RuleError::NotFound);
    let removed = st.remove_rule(r.id).unwrap();
    assert_eq!(removed.id, r.id);
    assert!(st.get_rule(r.id).is_none());
    assert_eq!(st.remove_rule(r.id).unwrap_err(), RuleError::NotFound);
    // ids are not reused
    assert_eq!(st.create_rule("a:1", "b:2", None, None, &s("t")).unwrap().id, 2);
}

#[test]
fn list_changes_are_validated() {
    let mut st = ProxyState::new();
    assert_eq!(st.add_block(" ", None).unwrap_err(), PolicyError::IpRequired);
    assert_eq!(st.add_block("1.1.1.1", Some(0)).unwrap_err(), PolicyError::InvalidPort);
    assert_eq!(st.add_allow("", Some(1)).unwrap_err(), PolicyError::IpRequired);
    assert_eq!(st.add_geo_block("x", None).unwrap_err(), PolicyError::Country(CountryError::WrongLength));
    assert_eq!(st.add_geo_block("de", Some(0)).unwrap_err(), PolicyError::InvalidPort);
    assert_eq!(st.remove_geo_block("d1", None).unwrap_err(), PolicyError::Country(CountryError::NotLetters));
    assert_eq!(PolicyError::IpRequired.message(), "IP is required");
    assert_eq!(PolicyError::InvalidPort.message(), "Port must be between 1 and 65535");
    st.add_block(" 1.1.1.1 ", None).unwrap();
    st.add_block("1.1.1.1", None).unwrap();
    assert_eq!(st.blocklist.len(), 1);
    assert_eq!(st.blocklist[0], "1.1.1.1");
    st.remove_block("1.1.1.1", None);
    assert_eq!(st.blocklist.len(), 0);
    st.add_geo_block(" de ", Some(443)).unwrap();
    assert_eq!(st.geo_port_blocklist[0].country, "DE");
    st.remove_geo_block("DE", Some(443)).unwrap();
    assert!(st.geo_port_blocklist.is_empty());
    st.add_allow("3.3.3.3", Some(8)).unwrap();
    st.remove_allow("3.3.3.3", Some(8));
    assert!(st.allowlist_ports.is_empty());
}

#[test]
fn rate_limits_have_a_floor_of_one() {
    let mut st = ProxyState::new();
    let r = st.update_rate_limit(Some(0), None, Some(5));
    assert_eq!(r, RateLimitConfig { max_new_connections_per_minute: 1, max_concurrent_connections_per_ip: 50, max_concurrent_total: 5 });
    assert_eq!(st.rate_limit(), r);
    assert_eq!(RateLimitConfig::default().max_concurrent_total, 2000);
}

#[test]
fn snapshot_round_trip() {
    let mut st = ProxyState::new();
    st.create_rule("a:1", "b:2", None, None, &s("t")).unwrap();
    st.create_rule("c:3", "d:4", Some(false), Some(ProtocolMode::Udp), &s("t")).unwrap();
    st.add_block("1.1.1.1", None).unwrap();
    st.add_block("2.2.2.2", Some(22)).unwrap();
    st.add_allow("3.3.3.3", None).unwrap();
    st.add_allow("4.4.4.4", Some(443)).unwrap();
    st.set_allowlist_enabled(true);
    st.add_geo_block("ru", None).unwrap();
    st.add_geo_block("cn", Some(80)).unwrap();
    st.update_rate_limit(Some(7), Some(8), Some(9));
    st.record_blocked(1, Some(1), s("5.5.5.5"), s("Blocked by rule"), &s("t"));
    let snap = st.snapshot_state();
    let loaded = ProxyState::from_persisted(snap).unwrap();
    assert_eq!(loaded.rules().len(), 2);
    assert_eq!(loaded.rules()[1].listen_addr, "c:3");
    assert_eq!(loaded.blocklist, vec![s("1.1.1.1")]);
    assert_eq!(loaded.port_blocklist[0].port, 22);
    assert_eq!(loaded.allowlist, vec![s("3.3.3.3")]);
    assert_eq!(loaded.allowlist_ports[0].ip, "4.4.4.4");
    assert!(loaded.allowlist_enabled());
    assert_eq!(loaded.geo_blocklist, vec![s("RU")]);
    assert_eq!(loaded.geo_port_blocklist[0].country, "CN");
    assert_eq!(loaded.rate_limit(), st.rate_limit());
    assert_eq!(loaded.history().len(), 1);
    assert_eq!(loaded.history()[0].client_ip, "5.5.5.5");
    assert_eq!(loaded.next_rule_id, 3);
    assert_eq!(loaded.next_conn_id, 2);
}

#[test]
fn loading_upper_cases_country_codes() {
    let p = PersistedState {
        rules: Vec::new(),
        blocklist: Vec::new(),
        port_blocklist: Vec::new(),
        allowlist: Vec::new(),
        allowlist_ports: Vec::new(),
        allowlist_enabled: false,
        geo_blocklist: vec![s("de")],
        geo_port_blocklist: Vec::new(),
        history: Vec::new(),
        rate_limit: RateLimitConfig::default(),
    };
    let st = ProxyState::from_persisted(p).unwrap();
    assert_eq!(st.geo_blocklist, vec![s("DE")]);
    assert_eq!(st.next_rule_id, 1);
    assert_eq!(st.next_conn_id, 1);
}

#[test]
fn udp_session_accounting_and_idle_reaping() {
    let mut t = SessionTable::new();
    let a = s("192.0.2.1:5000");
    assert!(!t.contains(&a));
    assert!(t.insert(&a, 7, 1_000));
    assert!(!t.insert(&a, 8, 1_000));
    assert_eq!(t.record_upstream(&a, 100, 2_000), Some(7));
    assert_eq!(t.record_upstream(&a, 50, 3_000), Some(7));
    t.record_downstream(&a, 100, 3_500);
    t.record_downstream(&a, 50, 4_000);
    assert_eq!(t.sessions[0].bytes_up, 150);
    assert_eq!(t.sessions[0].bytes_down, 150);
    assert!(!t.is_idle(&a, 64_000));
    assert!(t.is_idle(&a, 64_001));
    assert!(t.reap_if_idle(&a, 30_000).is_none());
    let gone = t.reap_if_idle(&a, 69_000).unwrap();
    assert_eq!(gone.conn_id, 7);
    assert_eq!(gone.bytes_up, 150);
    assert!(!t.contains(&a));
    assert!(t.is_idle(&a, 0));
    assert_eq!(t.record_upstream(&a, 1, 1), None);
}

#[test]
fn tcp_progress_publishes_on_interval_or_mebibyte() {
    let mut p = PumpProgress::new(0);
    let mut published = 0;
    let mut now = 0u64;
    let mut last = None;
    for _ in 0..384 {
        now += 1;
        if let Some(v) = p.record(8192, now) {
            published += 1;
            last = Some(v);
        }
    }
    assert_eq!(p.total, 3 * 1024 * 1024);
    assert!(published >= 2);
    assert_eq!(last, Some(3 * 1024 * 1024));
    let mut q = PumpProgress::new(0);
    assert_eq!(q.record(10, 50), None);
    assert_eq!(q.record(10, 100), Some(20));
    assert_eq!(q.last_publish, 100);
}

#[test]
fn failure_reasons() {
    assert_eq!(target_connect_failed("refused"), "Target connect failed: refused");
    assert_eq!(proxy_error("reset"), "Proxy error: reset");
    assert_eq!(udp_bind_failed("x"), "UDP bind failed: x");
}

#[test]
fn tcp_relay_accounting_end_to_end() {
    let mut st = ProxyState::new();
    let rule = st.create_rule("0.0.0.0:7000", "127.0.0.1:7001", None, None, &s("t0")).unwrap();
    let id = st.register_connection(rule.id, &s("127.0.0.1"), Some(7000), &None, 0, &s("t0")).unwrap();
    assert_eq!(st.active_connections().len(), 1);
    let mut up = PumpProgress::new(0);
    let mut down = PumpProgress::new(0);
    let mut seen = Vec::new();
    for k in 0..384u64 {
        if let Some(v) = up.record(8192, k) {
            st.update_connection_bytes(id, v, &s("t1"));
            seen.push(st.active_connections()[0].bytes_transferred);
        }
        if let Some(v) = down.record(8192, k) {
            st.update_connection_bytes(id, v, &s("t1"));
            seen.push(st.active_connections()[0].bytes_transferred);
        }
    }
    assert!(seen.iter().filter(|b| **b > 0).count() >= 2);
    st.record_connection_end(id, up.total, down.total, None, &s("t2"));
    assert!(st.active_connections().is_empty());
    let h = st.history_tail(None);
    assert_eq!(h.len(), 1);
    assert_eq!(h[0].bytes_up, 3 * 1024 * 1024);
    assert_eq!(h[0].bytes_down, 3 * 1024 * 1024);
    assert!(!h[0].blocked);
    assert!(h[0].reason.is_none());
}

#[test]
fn disabled_rule_leaves_no_active_connections() {
    let mut st = ProxyState::new();
    let rule = st.create_rule("0.0.0.0:7000", "127.0.0.1:7001", None, None, &s("t")).unwrap();
    let other = st.create_rule("0.0.0.0:8000", "127.0.0.1:8001", None, None, &s("t")).unwrap();
    let a = st.register_connection(rule.id, &s("1.1.1.1"), Some(7000), &None, 0, &s("t")).unwrap();
    let b = st.register_connection(other.id, &s("1.1.1.1"), Some(8000), &None, 0, &s("t")).unwrap();
    assert!(!st.set_rule_enabled(rule.id, false).unwrap().enabled);
    st.record_connection_end(a, 0, 0, Some(s("Listener stopped")), &s("t"));
    let active = st.active_connections();
    assert!(active.iter().all(|c| c.rule_id != rule.id));
    assert_eq!(active[0].conn_id, b);
}

#[test]
fn udp_session_scenario() {
    let mut st = ProxyState::new();
    let rule = st.create_rule("0.0.0.0:5353", "10.0.0.9:53", None, Some(ProtocolMode::Udp), &s("t")).unwrap();
    assert!(rule.protocol.uses_udp() && !rule.protocol.uses_tcp());
    let mut t = SessionTable::new();
    let client = s("192.0.2.7:40000");
    let id = st.register_connection(rule.id, &s("192.0.2.7"), Some(5353), &None, 1_000, &s("t")).unwrap();
    assert!(t.insert(&client, id, 1_000));
    t.record_upstream(&client, 40, 1_000);
    t.record_downstream(&client, 120, 1_100);
    t.record_upstream(&client, 60, 2_000);
    t.record_downstream(&client, 180, 2_100);
    assert_eq!(st.active_connections().len(), 1);
    assert!(t.reap_if_idle(&client, 60_000).is_none());
    let done = t.reap_if_idle(&client, 67_100).unwrap();
    st.record_connection_end(done.conn_id, done.bytes_up, done.bytes_down, None, &s("end"));
    assert!(st.active_connections().is_empty());
    let h = st.history_tail(None);
    assert_eq!(h[0].bytes_up, 100);
    assert_eq!(h[0].bytes_down, 300);
    assert!(!h[0].blocked);
}

#[test]
fn listings_are_ordered_by_port_then_text() {
    let mut st = ProxyState::new();
    st.add_block("b", Some(80)).unwrap();
    st.add_block("a", Some(80)).unwrap();
    st.add_block("z", None).unwrap();
    st.add_block("c", Some(22)).unwrap();
    let l = st.block_entries();
    let got: Vec<(String, Option<u16>)> = l.into_iter().map(|e| (e.text, e.port)).collect();
    assert_eq!(got, vec![(s("z"), None), (s("c"), Some(22)), (s("a"), Some(80)), (s("b"), Some(80))]);
    st.add_geo_block("us", Some(443)).unwrap();
    st.add_geo_block("de", None).unwrap();
    let g = st.geo_entries();
    assert_eq!(g[0].country, "DE");
    assert_eq!(g[0].port, None);
    assert_eq!(g[1].country, "US");
    st.add_allow("x", Some(1)).unwrap();
    assert_eq!(st.allow_entries()[0].port, Some(1));
}

#[test]
fn country_block_requests() {
    let mut st = ProxyState::new();
    let req = GeoBlockRequest { country: s(" fr "), port: Some(8080) };
    st.add_geo_block(&req.country, req.port).unwrap();
    assert_eq!(st.geo_entries()[0].country, "FR");
    assert_eq!(st.geo_entries()[0].port, Some(8080));
    let q = GeoBlockQuery { port: Some(8080) };
    st.remove_geo_block("fr", q.port).unwrap();
    assert!(st.geo_entries().is_empty());
}

#[test]
fn snapshot_orders_per_port_lists() {
    let mut st = ProxyState::new();
    st.add_block("b", Some(80)).unwrap();
    st.add_block("a", Some(80)).unwrap();
    st.add_block("c", Some(22)).unwrap();
    st.add_allow("y", Some(9)).unwrap();
    st.add_allow("x", Some(9)).unwrap();
    st.add_geo_block("us", Some(443)).unwrap();
    st.add_geo_block("de", Some(443)).unwrap();
    st.add_geo_block("fr", Some(80)).unwrap();
    let snap = st.snapshot_state();
    let blocks: Vec<(u16, String)> = snap.port_blocklist.iter().map(|e| (e.port, e.ip.clone())).collect();
    assert_eq!(blocks, vec![(22, s("c")), (80, s("a")), (80, s("b"))]);
    let allows: Vec<String> = snap.allowlist_ports.iter().map(|e| e.ip.clone()).collect();
    assert_eq!(allows, vec![s("x"), s("y")]);
    let geo: Vec<(u16, String)> = snap.geo_port_blocklist.iter().map(|e| (e.port, e.country.clone())).collect();
    assert_eq!(geo, vec![(80, s("FR")), (443, s("DE")), (443, s("US"))]);
}

#[test]
fn ended_rule_connections_are_logged_in_order() {
    let mut st = ProxyState::new();
    let a = st.create_rule("0.0.0.0:7000", "127.0.0.1:7001", None, None, &s("t")).unwrap();
    let first = st.register_connection(a.id, &s("1.1.1.1"), Some(7000), &None, 0, &s("t0")).unwrap();
    let second = st.register_connection(a.id, &s("2.2.2.2"), Some(7000), &None, 0, &s("t1")).unwrap();
    st.end_rule_connections(a.id, &s("Rule stopped"), &s("t2"));
    let h = st.history();
    assert_eq!(h.len(), 2);
    assert_eq!(h[0].id, first);
    assert_eq!(h[1].id, second);
    assert_eq!(h[1].started_at, "t1");
    assert_eq!(h[1].ended_at.as_deref(), Some("t2"));
    assert!(!h[1].blocked);
}
