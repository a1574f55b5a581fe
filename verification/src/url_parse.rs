//! The URL parser collaborator: parsing the input string into the host and
//! port components that validation inspects, and the diagnostic line for
//! each way parsing can fail.
use vstd::prelude::*;

use crate::validate::{
    components_outcome, lemma_validate_spec_components, outcome_line, outcome_message, validate,
    validate_spec, ParsedUrl, ValidationOutcome,
};

verus! {

/// Why the URL parser rejected an input, as a closed set of cases.
#[derive(Debug)]
pub enum ParseFailure {
    RelativeWithoutBase,
    InvalidIpv6,
    InvalidIpv4,
    InvalidPort,
    Other(String),
}

/// What the URL parser makes of one input text: the host and port
/// components when it parses, or the kind of rejection, with the message
/// text of the catch-all case.
pub enum UrlVerdict {
    Parsed(Option<Seq<char>>, Option<u32>),
    RelativeWithoutBase,
    InvalidIpv6,
    InvalidIpv4,
    InvalidPort,
    Other(Seq<char>),
}

/// The URL parser's verdict on a text: a function of the text alone.
pub uninterp spec fn url_verdict(s: Seq<char>) -> UrlVerdict;

#[verifier::external_type_specification]
#[verifier::external_body]
pub struct ExParseError(url::ParseError);

/// Relies on url::ParseError: tells its variants apart, one arm each, so
/// that callers can branch on a closed error type.
#[verifier::external_body]
fn failure_of_parse_error(e: url::ParseError) -> ParseFailure {
    match e {
        url::ParseError::RelativeUrlWithoutBase => ParseFailure::RelativeWithoutBase,
        url::ParseError::InvalidIpv6Address => ParseFailure::InvalidIpv6,
        url::ParseError::InvalidIpv4Address => ParseFailure::InvalidIpv4,
        url::ParseError::InvalidPort => ParseFailure::InvalidPort,
        other => ParseFailure::Other(other.to_string()),
    }
}

/// Relies on url::Url::parse and the accessors scheme, host_str, port and
/// as_str: parsing is a deterministic function of the input text, named by
/// `url_verdict`; on success they hand over the components, and port is a
/// sixteen-bit number, so an explicit port is at most 65535.
#[verifier::external_body]
pub fn parse_url(input: &str) -> (r: Result<ParsedUrl, ParseFailure>)
    ensures
        (r is Ok) == (url_verdict(input@) is Parsed),
        r matches Ok(u) ==> url_verdict(input@) == UrlVerdict::Parsed(u.host_view(), u.port) && (
        u.port matches Some(p) ==> p <= 65535),
        r matches Err(e) ==> match e {
            ParseFailure::RelativeWithoutBase => url_verdict(input@)
                == UrlVerdict::RelativeWithoutBase,
            ParseFailure::InvalidIpv6 => url_verdict(input@) == UrlVerdict::InvalidIpv6,
            ParseFailure::InvalidIpv4 => url_verdict(input@) == UrlVerdict::InvalidIpv4,
            ParseFailure::InvalidPort => url_verdict(input@) == UrlVerdict::InvalidPort,
            ParseFailure::Other(m) => url_verdict(input@) == UrlVerdict::Other(m@),
        },
{
    match url::Url::parse(input) {
        Ok(u) => Ok(ParsedUrl {
            scheme: u.scheme().to_string(),
            host: u.host_str().map(|h| h.to_string()),
            port: u.port().map(|p| p as u32),
            serialized: u.as_str().to_string(),
        }),
        Err(e) => Err(failure_of_parse_error(e)),
    }
}

/// The diagnostic line for a parse failure.
pub fn parse_failure_message(f: &ParseFailure) -> (r: String)
    ensures
        match *f {
            ParseFailure::RelativeWithoutBase => r@
                == "The URL does not have a valid base protocol."@,
            ParseFailure::InvalidIpv6 => r@ == "The URL contains an invalid IPv6 address."@,
            ParseFailure::InvalidIpv4 => r@ == "The URL contains an invalid IPv4 address."@,
            ParseFailure::InvalidPort => r@ == "The URL contains an invalid port number."@,
            ParseFailure::Other(ref m) => r@ == "Invalid URL: "@ + m@,
        },
{
    match f {
        ParseFailure::RelativeWithoutBase => String::from_str(
            "The URL does not have a valid base protocol.",
        ),
        ParseFailure::InvalidIpv6 => String::from_str("The URL contains an invalid IPv6 address."),
        ParseFailure::InvalidIpv4 => String::from_str("The URL contains an invalid IPv4 address."),
        ParseFailure::InvalidPort => String::from_str("The URL contains an invalid port number."),
        ParseFailure::Other(m) => {
            let mut r = String::from_str("Invalid URL: ");
            r.append(m.as_str());
            r
        },
    }
}

/// The diagnostic line that each verdict of the pre-request phase ends in:
/// the parser's line for a rejected text, the validator's line for parsed
/// components that fail validation, and the empty sequence where the
/// request proceeds.
pub open spec fn verdict_error_line(v: UrlVerdict) -> Seq<char> {
    match v {
        UrlVerdict::Parsed(h, p) => outcome_line(components_outcome(h, p)),
        UrlVerdict::RelativeWithoutBase => "The URL does not have a valid base protocol."@,
        UrlVerdict::InvalidIpv6 => "The URL contains an invalid IPv6 address."@,
        UrlVerdict::InvalidIpv4 => "The URL contains an invalid IPv4 address."@,
        UrlVerdict::InvalidPort => "The URL contains an invalid port number."@,
        UrlVerdict::Other(m) => "Invalid URL: "@ + m,
    }
}

/// The whole phase before any network traffic: parse the input, then
/// validate the host and, when the host passed, the port. The request
/// proceeds exactly when the text parses and its components validate; a
/// failed run ends in the one diagnostic line its verdict stands for.
pub fn prepare_request(input: &str) -> (r: Result<ParsedUrl, String>)
    ensures
        (r is Ok) == (url_verdict(input@) matches UrlVerdict::Parsed(h, p) && components_outcome(
            h,
            p,
        ) == ValidationOutcome::Valid),
        r matches Ok(u) ==> url_verdict(input@) == UrlVerdict::Parsed(u.host_view(), u.port)
            && validate_spec(&u) == ValidationOutcome::Valid && (u.port matches Some(p) ==> p
            <= 65535),
        r matches Err(m) ==> m@ == verdict_error_line(url_verdict(input@)),
{
    match parse_url(input) {
        Ok(u) => {
            proof {
                lemma_validate_spec_components(&u);
            }
            match outcome_message(&validate(&u)) {
                None => Ok(u),
                Some(m) => Err(m),
            }
        },
        Err(e) => Err(parse_failure_message(&e)),
    }
}

} // verus!
