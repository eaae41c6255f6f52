use proxypanel::admission::Rejection;
use proxypanel::reports::is_ddos_reason;
use proxypanel::state::ProxyState;

fn s(v: &str) -> String {
    v.to_string()
}

#[test]
fn rate_limit_trips_on_fourth_connect() {
    let mut st = ProxyState::new();
    st.update_rate_limit(Some(3), Some(100), None);
    let ip = s("10.0.0.1");
    let now = s("2024-01-01T00:00:00Z");
    for k in 0..3u64 {
        let r = st.register_connection(1, &ip, Some(7000), &None, 1_000 + k * 1_000, &now);
        assert!(r.is_ok());
    }
    let r = st.register_connection(1, &ip, Some(7000), &None, 9_000, &now);
    let rej = r.unwrap_err();
    assert!(matches!(rej, Rejection::RateLimited));
    let reason = rej.message();
    assert!(reason.contains("Rate limit"));
    st.record_blocked(1, Some(7000), ip.clone(), reason, &now);
    let blocked = st.blocked_connections(None);
    assert_eq!(blocked.len(), 1);
    assert!(blocked[0].blocked);
    assert!(blocked[0].reason.as_ref().unwrap().contains("Rate limit"));
    let ddos = st.ddos_list();
    assert_eq!(ddos.len(), 1);
    assert_eq!(ddos[0].ip, "10.0.0.1");
    assert_eq!(ddos[0].count, 1);
    assert_eq!(ddos[0].last_port, Some(7000));
}

#[test]
fn rate_window_slides() {
    let mut st = ProxyState::new();
    st.update_rate_limit(Some(2), None, None);
    let ip = s("10.0.0.1");
    let now = s("t");
    assert!(st.register_connection(1, &ip, None, &None, 0, &now).is_ok());
    assert!(st.register_connection(1, &ip, None, &None, 30_000, &now).is_ok());
    assert!(matches!(st.register_connection(1, &ip, None, &None, 60_000, &now), Err(Rejection::RateLimited)));
    // the first admission is older than 60 s at 60 001 ms
    assert!(st.register_connection(1, &ip, None, &None, 60_001, &now).is_ok());
    assert_eq!(st.rate_window(&ip), vec![30_000, 60_001]);
    // another address has its own window
    assert!(st.register_connection(1, &s("10.0.0.9"), None, &None, 60_001, &now).is_ok());
}

#[test]
fn port_allowlist_admits_only_listed_addresses() {
    let mut st = ProxyState::new();
    st.add_allow("10.0.0.2", Some(443)).unwrap();
    let now = s("t");
    let r = st.register_connection(1, &s("10.0.0.3"), Some(443), &None, 0, &now);
    let rej = r.unwrap_err();
    assert!(matches!(rej, Rejection::NotInPortAllowlist { port: 443 }));
    assert!(rej.message().contains("allowlist for port 443"));
    assert_eq!(rej.message(), "Not in allowlist for port 443");
    assert!(st.register_connection(1, &s("10.0.0.2"), Some(443), &None, 0, &now).is_ok());
    // other ports are not restricted
    assert!(st.register_connection(1, &s("10.0.0.3"), Some(80), &None, 0, &now).is_ok());
}

#[test]
fn allowlist_is_checked_before_blocklist() {
    let mut st = ProxyState::new();
    st.add_allow("10.0.0.2", Some(443)).unwrap();
    st.add_block("10.0.0.3", None).unwrap();
    let now = s("t");
    let rej = st.register_connection(1, &s("10.0.0.3"), Some(443), &None, 0, &now).unwrap_err();
    assert!(matches!(rej, Rejection::NotInPortAllowlist { port: 443 }));
    let rej = st.register_connection(1, &s("10.0.0.3"), Some(80), &None, 0, &now).unwrap_err();
    assert!(matches!(rej, Rejection::Blocked));
    assert_eq!(rej.message(), "Blocked by rule");
}

#[test]
fn global_allowlist_mode() {
    let mut st = ProxyState::new();
    st.set_allowlist_enabled(true);
    st.add_allow("1.1.1.1", None).unwrap();
    let now = s("t");
    let rej = st.register_connection(1, &s("2.2.2.2"), None, &None, 0, &now).unwrap_err();
    assert!(matches!(rej, Rejection::NotInAllowlist));
    assert_eq!(rej.message(), "Not in allowlist");
    assert!(st.register_connection(1, &s("1.1.1.1"), None, &None, 0, &now).is_ok());
    st.set_allowlist_enabled(false);
    assert!(st.register_connection(1, &s("2.2.2.2"), None, &None, 0, &now).is_ok());
}

#[test]
fn geo_blocks_apply_to_the_resolved_country() {
    let mut st = ProxyState::new();
    st.add_geo_block("ru", Some(22)).unwrap();
    st.add_geo_block("cn", None).unwrap();
    let now = s("t");
    let ru = Some(s("RU"));
    let rej = st.register_connection(1, &s("5.5.5.5"), Some(22), &ru, 0, &now).unwrap_err();
    assert_eq!(rej.message(), "Geo blocked for port 22: RU");
    assert!(st.register_connection(1, &s("5.5.5.5"), Some(80), &ru, 0, &now).is_ok());
    let rej = st.register_connection(1, &s("6.6.6.6"), Some(80), &Some(s("CN")), 0, &now).unwrap_err();
    assert_eq!(rej.message(), "Geo blocked: CN");
    // without a resolved country no geo rule applies
    assert!(st.register_connection(1, &s("6.6.6.6"), Some(80), &None, 0, &now).is_ok());
}

#[test]
fn port_blocklist() {
    let mut st = ProxyState::new();
    st.add_block("7.7.7.7", Some(25)).unwrap();
    let now = s("t");
    let rej = st.register_connection(1, &s("7.7.7.7"), Some(25), &None, 0, &now).unwrap_err();
    assert_eq!(rej.message(), "Blocked for port 25");
    assert!(st.register_connection(1, &s("7.7.7.7"), Some(26), &None, 0, &now).is_ok());
    st.remove_block("7.7.7.7", Some(25));
    assert!(st.register_connection(1, &s("7.7.7.7"), Some(25), &None, 0, &now).is_ok());
}

#[test]
fn concurrency_caps() {
    let mut st = ProxyState::new();
    st.update_rate_limit(None, Some(2), Some(3));
    let now = s("t");
    let a = s("1.0.0.1");
    assert!(st.register_connection(1, &a, None, &None, 0, &now).is_ok());
    assert!(st.register_connection(1, &a, None, &None, 0, &now).is_ok());
    let rej = st.register_connection(1, &a, None, &None, 0, &now).unwrap_err();
    assert!(matches!(rej, Rejection::TooManyForIp));
    assert_eq!(rej.message(), "Too many active connections for IP");
    assert!(st.register_connection(1, &s("1.0.0.2"), None, &None, 0, &now).is_ok());
    let rej = st.register_connection(1, &s("1.0.0.3"), None, &None, 0, &now).unwrap_err();
    assert!(matches!(rej, Rejection::TooManyTotal));
    assert_eq!(rej.message(), "Too many total connections");
    assert!(rej.is_ddos());
    assert!(!Rejection::Blocked.is_ddos());
}

#[test]
fn counters_follow_admissions_and_finalizations() {
    let mut st = ProxyState::new();
    let now = s("t");
    let a = s("1.0.0.1");
    let b = s("1.0.0.2");
    let id1 = st.register_connection(1, &a, None, &None, 0, &now).unwrap();
    let id2 = st.register_connection(1, &a, None, &None, 0, &now).unwrap();
    let id3 = st.register_connection(2, &b, Some(9), &None, 0, &now).unwrap();
    assert_eq!(st.active_count(&a), 2);
    assert_eq!(st.active_count(&b), 1);
    assert_eq!(st.active_len(), 3);
    st.record_connection_end(id1, 10, 20, None, &s("end"));
    assert_eq!(st.active_count(&a), 1);
    st.record_connection_end(id3, 0, 0, None, &s("end"));
    assert_eq!(st.active_count(&b), 0);
    assert_eq!(st.active_len(), 1);
    assert_eq!(st.active_connections()[0].conn_id, id2);
    // finalizing twice changes nothing
    st.record_connection_end(id3, 0, 0, None, &s("end"));
    assert_eq!(st.history().len(), 2);
    let h = st.history_tail(None);
    assert_eq!(h[0].id, id1);
    assert_eq!(h[0].bytes_up, 10);
    assert_eq!(h[0].bytes_down, 20);
    assert_eq!(h[0].ended_at.as_deref(), Some("end"));
    assert!(!h[0].blocked);
}

#[test]
fn connection_ids_increase() {
    let mut st = ProxyState::new();
    let now = s("t");
    let a = st.register_connection(1, &s("1.1.1.1"), None, &None, 0, &now).unwrap();
    st.record_blocked(1, None, s("2.2.2.2"), s("x"), &now);
    let b = st.register_connection(1, &s("1.1.1.1"), None, &None, 0, &now).unwrap();
    assert!(a < b);
    assert_eq!(b, a + 2);
}

#[test]
fn history_keeps_newest_ten_thousand() {
    let mut st = ProxyState::new();
    let now = s("t");
    for _ in 0..10_001 {
        st.record_blocked(1, None, s("9.9.9.9"), s("Blocked by rule"), &now);
    }
    assert_eq!(st.history().len(), 10_000);
    assert_eq!(st.history()[0].id, 2);
    assert_eq!(st.history()[9_999].id, 10_001);
}

#[test]
fn byte_progress_updates_active_record() {
    let mut st = ProxyState::new();
    let id = st.register_connection(1, &s("1.1.1.1"), Some(1), &None, 0, &s("start")).unwrap();
    st.update_connection_bytes(id, 4096, &s("later"));
    let a = st.active_connections();
    assert_eq!(a[0].bytes_transferred, 4096);
    assert_eq!(a[0].last_update, "later");
    assert_eq!(a[0].started_at, "start");
}

#[test]
fn ddos_reasons() {
    assert!(is_ddos_reason("Rate limit exceeded"));
    assert!(is_ddos_reason("Too many total connections"));
    assert!(!is_ddos_reason("Blocked by rule"));
    assert!(!is_ddos_reason(""));
}

#[test]
fn ddos_report_groups_by_address_newest_first() {
    let mut st = ProxyState::new();
    st.record_blocked(1, Some(1), s("a"), s("Rate limit exceeded"), &s("2024-01-01T00:00:01Z"));
    st.record_blocked(1, Some(2), s("b"), s("Too many total connections"), &s("2024-01-01T00:00:02Z"));
    st.record_blocked(1, Some(3), s("a"), s("Too many active connections for IP"), &s("2024-01-01T00:00:03Z"));
    st.record_blocked(1, Some(4), s("c"), s("Blocked by rule"), &s("2024-01-01T00:00:04Z"));
    let r = st.ddos_list();
    assert_eq!(r.len(), 2);
    assert_eq!(r[0].ip, "a");
    assert_eq!(r[0].count, 2);
    assert_eq!(r[0].last_port, Some(3));
    assert_eq!(r[0].last_reason, "Too many active connections for IP");
    assert_eq!(r[0].last_seen, "2024-01-01T00:00:03Z");
    assert_eq!(r[1].ip, "b");
    assert_eq!(r[1].count, 1);
}

#[test]
fn recent_and_blocked_views() {
    let mut st = ProxyState::new();
    let now = s("t");
    let id1 = st.register_connection(1, &s("1.1.1.1"), None, &None, 0, &now).unwrap();
    let id2 = st.register_connection(1, &s("1.1.1.1"), None, &None, 0, &now).unwrap();
    st.record_connection_end(id1, 1, 1, None, &now);
    st.record_blocked(1, None, s("2.2.2.2"), s("Blocked by rule"), &now);
    st.record_connection_end(id2, 1, 1, None, &now);
    let recent = st.recent_connections(None);
    assert_eq!(recent.len(), 2);
    assert_eq!(recent[0].id, id2);
    assert_eq!(recent[1].id, id1);
    assert_eq!(st.recent_connections(Some(1)).len(), 1);
    assert_eq!(st.blocked_connections(None).len(), 1);
    assert_eq!(st.history_tail(Some(2)).len(), 2);
    assert_eq!(st.history_tail(Some(2))[1].id, id2);
    assert_eq!(st.recent_connections(Some(0)).len(), 0);
}

#[test]
fn stale_stamps_are_dropped_wherever_they_stand() {
    let mut st = ProxyState::new();
    let ip = s("10.0.0.1");
    let now = s("t");
    assert!(st.register_connection(1, &ip, None, &None, 100_000, &now).is_ok());
    // a clock that stepped back leaves an older stamp behind a newer one
    assert!(st.register_connection(1, &ip, None, &None, 0, &now).is_ok());
    assert_eq!(st.rate_window(&ip), vec![100_000, 0]);
    assert!(st.register_connection(1, &ip, None, &None, 100_001, &now).is_ok());
    assert_eq!(st.rate_window(&ip), vec![100_000, 100_001]);
}
