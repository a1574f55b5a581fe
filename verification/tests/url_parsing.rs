use vcurl::url_parse::{parse_failure_message, parse_url, prepare_request, ParseFailure};
use vcurl::validate::{validate, ValidationOutcome};

#[test]
fn malformed_ipv4_is_rejected_before_any_request() {
    match parse_url("http://999.999.999.999/") {
        Err(e) => {
            assert!(matches!(e, ParseFailure::InvalidIpv4));
            assert_eq!(
                parse_failure_message(&e),
                "The URL contains an invalid IPv4 address."
            );
        },
        Ok(_) => panic!("the parser admitted a malformed IPv4 host"),
    }
}

#[test]
fn out_of_range_port_is_rejected() {
    match parse_url("http://example.com:99999/") {
        Err(e) => {
            assert!(matches!(e, ParseFailure::InvalidPort));
            assert_eq!(
                parse_failure_message(&e),
                "The URL contains an invalid port number."
            );
        },
        Ok(_) => panic!("the parser admitted an out-of-range port"),
    }
}

#[test]
fn relative_urls_are_rejected() {
    match parse_url("/just/a/path") {
        Err(e) => {
            assert!(matches!(e, ParseFailure::RelativeWithoutBase));
            assert_eq!(
                parse_failure_message(&e),
                "The URL does not have a valid base protocol."
            );
        },
        Ok(_) => panic!("the parser admitted a relative URL"),
    }
}

#[test]
fn malformed_ipv6_is_rejected_at_parse_or_validation() {
    // Whether the generic parser or the validator catches it, the run ends
    // with the IPv6 diagnostic.
    let line = prepare_request("http://[::zzzz]/").expect_err("the host must be flagged");
    assert_eq!(line, "The URL contains an invalid IPv6 address.");
}

#[test]
fn parsed_components_reach_validation() {
    let u = parse_url("http://example.com:8080/x?y=1").expect("a well-formed URL parses");
    assert_eq!(u.scheme, "http");
    assert_eq!(u.host.as_deref(), Some("example.com"));
    assert_eq!(u.port, Some(8080));
    assert_eq!(u.serialized, "http://example.com:8080/x?y=1");
    assert_eq!(validate(&u), ValidationOutcome::Valid);
}

#[test]
fn bracketed_ipv6_host_comes_through_with_brackets() {
    let u = parse_url("http://[::1]:80/").expect("a bracketed IPv6 URL parses");
    assert_eq!(u.host.as_deref(), Some("[::1]"));
    assert_eq!(validate(&u), ValidationOutcome::Valid);
}

#[test]
fn end_to_end_no_request_on_invalid_host() {
    // The whole pre-request phase on a malformed IPv4 input: the run ends
    // with the validation error line, before any transport is touched.
    let line = prepare_request("http://999.999.999.999/").expect_err("must not validate");
    assert_eq!(format!("Error: {}", line), "Error: The URL contains an invalid IPv4 address.");
}

#[test]
fn end_to_end_invalid_port_line() {
    let line = prepare_request("http://example.com:99999/").expect_err("must not validate");
    assert_eq!(format!("Error: {}", line), "Error: The URL contains an invalid port number.");
}

#[test]
fn prepare_request_passes_a_well_formed_url() {
    let u = prepare_request("http://example.com/").expect("a plain hostname validates");
    assert_eq!(u.host.as_deref(), Some("example.com"));
}
