use proxypanel::port_range::{expand_listen_targets, AddrError};
use proxypanel::protocol::ProtocolMode;
use proxypanel::geo::{normalize_country, CountryError};

#[test]
fn range_expansion_pairs_positionally() {
    let targets = expand_listen_targets("0.0.0.0:9000-9002", "10.0.0.5:9000-9002").unwrap();
    assert_eq!(targets.len(), 3);
    assert_eq!(targets[0].listen_addr, "0.0.0.0:9000");
    assert_eq!(targets[1].listen_port, 9001);
    assert_eq!(targets[1].listen_addr, "0.0.0.0:9001");
    assert_eq!(targets[1].target_addr, "10.0.0.5:9001");
    assert_eq!(targets[2].target_addr, "10.0.0.5:9002");
}

#[test]
fn range_mismatch_is_rejected() {
    let err = expand_listen_targets("0.0.0.0:9000-9002", "10.0.0.5:9000-9001").unwrap_err();
    assert_eq!(err, AddrError::RangeMismatch { listen: 3, target: 2 });
    assert_eq!(err.message(), "Port range mismatch: listen has 3 ports, target has 2 ports");
}

#[test]
fn single_target_port_serves_every_listen_port() {
    let targets = expand_listen_targets("0.0.0.0:7000-7001", "127.0.0.1:7001").unwrap();
    assert_eq!(targets.len(), 2);
    assert_eq!(targets[0].target_addr, "127.0.0.1:7001");
    assert_eq!(targets[1].target_addr, "127.0.0.1:7001");
    assert_eq!(targets[1].listen_addr, "0.0.0.0:7001");
}

#[test]
fn single_port_rule() {
    let targets = expand_listen_targets(" 0.0.0.0:7000 ", "127.0.0.1:7001").unwrap();
    assert_eq!(targets.len(), 1);
    assert_eq!(targets[0].listen_addr, "0.0.0.0:7000");
    assert_eq!(targets[0].listen_port, 7000);
    assert_eq!(targets[0].target_addr, "127.0.0.1:7001");
}

#[test]
fn bracketed_ipv6_addresses() {
    let targets = expand_listen_targets("[::]:8443", "[2001:db8::1]:443").unwrap();
    assert_eq!(targets[0].listen_addr, "[::]:8443");
    assert_eq!(targets[0].target_addr, "[2001:db8::1]:443");
}

#[test]
fn address_errors() {
    assert_eq!(expand_listen_targets("   ", "a:1").unwrap_err(), AddrError::EmptyAddress);
    assert_eq!(expand_listen_targets("[::1", "a:1").unwrap_err(), AddrError::InvalidIpv6);
    assert_eq!(expand_listen_targets("[::1]80", "a:1").unwrap_err(), AddrError::MissingPort);
    assert_eq!(expand_listen_targets("[::1]:", "a:1").unwrap_err(), AddrError::MissingPort);
    assert_eq!(expand_listen_targets("host", "a:1").unwrap_err(), AddrError::MissingPort);
    assert_eq!(expand_listen_targets(":80", "a:1").unwrap_err(), AddrError::MissingHostOrPort);
    assert_eq!(expand_listen_targets("host:", "a:1").unwrap_err(), AddrError::MissingHostOrPort);
    assert_eq!(expand_listen_targets("host:abc", "a:1").unwrap_err(), AddrError::InvalidPort);
    assert_eq!(expand_listen_targets("host:70000", "a:1").unwrap_err(), AddrError::InvalidPort);
    assert_eq!(expand_listen_targets("host:0", "a:1").unwrap_err(), AddrError::ZeroPort);
    assert_eq!(expand_listen_targets("host:0-5", "a:1").unwrap_err(), AddrError::RangeIncludesZero);
    assert_eq!(expand_listen_targets("host:10-5", "a:1").unwrap_err(), AddrError::RangeReversed);
    assert_eq!(expand_listen_targets("host:1-1025", "a:1").unwrap_err(), AddrError::RangeTooLarge);
    assert_eq!(expand_listen_targets("a:1", "b:x").unwrap_err(), AddrError::InvalidPort);
}

#[test]
fn widest_range_is_accepted() {
    let targets = expand_listen_targets("h:1-1024", "t:2001-3024").unwrap();
    assert_eq!(targets.len(), 1024);
    assert_eq!(targets[1023].listen_addr, "h:1024");
    assert_eq!(targets[1023].target_addr, "t:3024");
}

#[test]
fn port_tokens_follow_integer_parsing() {
    let targets = expand_listen_targets("h:+80", "t: 81 ").unwrap();
    assert_eq!(targets[0].listen_port, 80);
    assert_eq!(targets[0].target_addr, "t:81");
    let targets = expand_listen_targets("h:007 - 008", "t:1").unwrap();
    assert_eq!(targets.len(), 2);
    assert_eq!(targets[0].listen_addr, "h:7");
    assert_eq!(expand_listen_targets("h:-80", "t:1").unwrap_err(), AddrError::InvalidPort);
    assert_eq!(expand_listen_targets("h:65535", "t:1").unwrap()[0].listen_port, 65535);
}

#[test]
fn address_error_messages() {
    assert_eq!(AddrError::EmptyAddress.message(), "Address is empty");
    assert_eq!(AddrError::RangeTooLarge.message(), "Port range too large (max 1024)");
    assert_eq!(AddrError::RangeIncludesZero.message(), "Port range cannot include 0");
}

#[test]
fn protocol_modes() {
    assert!(ProtocolMode::Tcp.uses_tcp());
    assert!(!ProtocolMode::Tcp.uses_udp());
    assert!(ProtocolMode::Udp.uses_udp());
    assert!(!ProtocolMode::Udp.uses_tcp());
    assert!(ProtocolMode::Both.uses_tcp() && ProtocolMode::Both.uses_udp());
    assert_eq!(ProtocolMode::default(), ProtocolMode::Tcp);
}

#[test]
fn country_codes_are_normalized() {
    assert_eq!(normalize_country(" ru ").unwrap(), "RU");
    assert_eq!(normalize_country("De").unwrap(), "DE");
    assert_eq!(normalize_country("r").unwrap_err(), CountryError::WrongLength);
    assert_eq!(normalize_country("rus").unwrap_err(), CountryError::WrongLength);
    assert_eq!(normalize_country("r1").unwrap_err(), CountryError::NotLetters);
    assert_eq!(normalize_country("\u{e9}").unwrap_err(), CountryError::NotLetters);
    assert_eq!(CountryError::WrongLength.message(), "Country code must be 2 letters");
    assert_eq!(CountryError::NotLetters.message(), "Country code must be letters");
}
