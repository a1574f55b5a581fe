use vcurl::validate::{
    check_ip_address, check_port_number, is_digit_dot_only, is_valid_ipv4, is_valid_ipv6,
    outcome_message, validate, IpKind, ParsedUrl, ValidationOutcome,
};

fn url_with_host(host: &str) -> ParsedUrl {
    ParsedUrl {
        scheme: "http".to_string(),
        host: Some(host.to_string()),
        port: None,
        serialized: format!("http://{}/", host),
    }
}

fn url_with_port(port: u32) -> ParsedUrl {
    ParsedUrl {
        scheme: "http".to_string(),
        host: Some("example.com".to_string()),
        port: Some(port),
        serialized: "http://example.com/".to_string(),
    }
}

#[test]
fn valid_ipv4_hosts_validate() {
    for host in ["0.0.0.0", "127.0.0.1", "255.255.255.255", "192.168.1.10", "8.8.8.8"] {
        assert_eq!(validate(&url_with_host(host)), ValidationOutcome::Valid);
    }
}

#[test]
fn digit_dot_hosts_that_are_not_ipv4_are_flagged() {
    assert_eq!(
        validate(&url_with_host("999.1.1.1")),
        ValidationOutcome::InvalidHost(IpKind::V4)
    );
    assert_eq!(
        validate(&url_with_host("1.2.3")),
        ValidationOutcome::InvalidHost(IpKind::V4)
    );
}

#[test]
fn more_malformed_ipv4_shapes() {
    assert_eq!(
        validate(&url_with_host("1.2.3.4.5")),
        ValidationOutcome::InvalidHost(IpKind::V4)
    );
    assert_eq!(
        validate(&url_with_host("01.2.3.4")),
        ValidationOutcome::InvalidHost(IpKind::V4)
    );
    assert_eq!(
        validate(&url_with_host("256.1.1.1")),
        ValidationOutcome::InvalidHost(IpKind::V4)
    );
    assert_eq!(
        validate(&url_with_host("...")),
        ValidationOutcome::InvalidHost(IpKind::V4)
    );
}

#[test]
fn bracketed_ipv6_hosts() {
    assert_eq!(validate(&url_with_host("[::1]")), ValidationOutcome::Valid);
    assert_eq!(
        validate(&url_with_host("[::zzzz]")),
        ValidationOutcome::InvalidHost(IpKind::V6)
    );
}

#[test]
fn ipv6_grammar_details() {
    assert!(is_valid_ipv6("1:2:3:4:5:6:7:8"));
    assert!(is_valid_ipv6("::"));
    assert!(is_valid_ipv6("::1"));
    assert!(is_valid_ipv6("1::"));
    assert!(is_valid_ipv6("1:2:3:4:5:6:7::"));
    assert!(is_valid_ipv6("::1:2:3:4:5:6:7"));
    assert!(is_valid_ipv6("a::b"));
    assert!(is_valid_ipv6("abcd:ef01:2345:6789:abcd:ef01:2345:6789"));
    assert!(is_valid_ipv6("::ffff:1.2.3.4"));
    assert!(is_valid_ipv6("1:2:3:4:5:6:1.2.3.4"));

    assert!(!is_valid_ipv6(""));
    assert!(!is_valid_ipv6(":"));
    assert!(!is_valid_ipv6(":::"));
    assert!(!is_valid_ipv6("1:2:3:4:5:6:7"));
    assert!(!is_valid_ipv6("1:2:3:4:5:6:7:8:9"));
    assert!(!is_valid_ipv6("::1:2:3:4:5:6:7:8"));
    assert!(!is_valid_ipv6("1::2::3"));
    assert!(!is_valid_ipv6("12345::"));
    assert!(!is_valid_ipv6("g::1"));
    assert!(!is_valid_ipv6("1.2.3.4::1"));
}

#[test]
fn plain_hostnames_validate_without_resolution() {
    assert_eq!(validate(&url_with_host("example.com")), ValidationOutcome::Valid);
    assert_eq!(
        validate(&url_with_host("no-such-host.invalid")),
        ValidationOutcome::Valid
    );
    assert_eq!(validate(&url_with_host("a1.2.3.4")), ValidationOutcome::Valid);
}

#[test]
fn missing_host_is_reported() {
    let u = ParsedUrl {
        scheme: "http".to_string(),
        host: None,
        port: None,
        serialized: "http:".to_string(),
    };
    assert_eq!(validate(&u), ValidationOutcome::NoHost);
    assert_eq!(check_ip_address(&u), ValidationOutcome::NoHost);
}

#[test]
fn port_bounds() {
    assert_eq!(validate(&url_with_port(70000)), ValidationOutcome::InvalidPort);
    assert_eq!(validate(&url_with_port(80)), ValidationOutcome::Valid);
    assert_eq!(validate(&url_with_port(65535)), ValidationOutcome::Valid);
    assert_eq!(validate(&url_with_port(65536)), ValidationOutcome::InvalidPort);
    assert_eq!(check_port_number(&url_with_port(70000)), ValidationOutcome::InvalidPort);
    assert_eq!(check_port_number(&url_with_port(0)), ValidationOutcome::Valid);
}

#[test]
fn host_error_shadows_port_error() {
    let u = ParsedUrl {
        scheme: "http".to_string(),
        host: Some("999.1.1.1".to_string()),
        port: Some(70000),
        serialized: "http://999.1.1.1/".to_string(),
    };
    assert_eq!(validate(&u), ValidationOutcome::InvalidHost(IpKind::V4));
}

#[test]
fn outcome_messages() {
    assert_eq!(outcome_message(&ValidationOutcome::Valid), None);
    assert_eq!(
        outcome_message(&ValidationOutcome::InvalidHost(IpKind::V4)).unwrap(),
        "The URL contains an invalid IPv4 address."
    );
    assert_eq!(
        outcome_message(&ValidationOutcome::InvalidHost(IpKind::V6)).unwrap(),
        "The URL contains an invalid IPv6 address."
    );
    assert_eq!(
        outcome_message(&ValidationOutcome::InvalidPort).unwrap(),
        "The URL contains an invalid port number."
    );
    assert_eq!(
        outcome_message(&ValidationOutcome::NoHost).unwrap(),
        "The URL does not contain a host."
    );
}

#[test]
fn ipv4_checker_details() {
    assert!(is_valid_ipv4("0.0.0.0"));
    assert!(is_valid_ipv4("255.0.10.2"));
    assert!(!is_valid_ipv4("255.0.10"));
    assert!(!is_valid_ipv4("1.2.3.04"));
    assert!(!is_valid_ipv4("1.2.3.256"));
    assert!(!is_valid_ipv4("1.2.3.4."));
    assert!(!is_valid_ipv4("a.b.c.d"));
    assert!(is_digit_dot_only("999.1.1.1"));
    assert!(is_digit_dot_only(""));
    assert!(!is_digit_dot_only("example.com"));
}
