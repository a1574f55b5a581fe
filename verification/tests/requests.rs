use vcurl::request::{
    dispatch, failure_message, interpret_response, parse_data, RequestFailure, RequestPlan,
    TransportOutcome,
};

#[test]
fn put_is_unsupported_regardless_of_body() {
    match dispatch("PUT", Some("a=1".to_string())) {
        Err(RequestFailure::UnsupportedMethod(m)) => assert_eq!(m, "PUT"),
        _ => panic!("expected an unsupported-method failure"),
    }
    match dispatch("PUT", None) {
        Err(RequestFailure::UnsupportedMethod(m)) => assert_eq!(m, "PUT"),
        _ => panic!("expected an unsupported-method failure"),
    }
    match dispatch("delete", None) {
        Err(RequestFailure::UnsupportedMethod(m)) => assert_eq!(m, "DELETE"),
        _ => panic!("expected an unsupported-method failure"),
    }
}

#[test]
fn methods_are_case_insensitive() {
    assert!(matches!(dispatch("get", None), Ok(RequestPlan::Get)));
    assert!(matches!(dispatch("GeT", None), Ok(RequestPlan::Get)));
    assert!(matches!(dispatch("post", None), Ok(RequestPlan::PostEmpty)));
}

#[test]
fn get_ignores_any_body() {
    assert!(matches!(
        dispatch("GET", Some("a=1&b=2".to_string())),
        Ok(RequestPlan::Get)
    ));
}

#[test]
fn post_with_body_builds_the_mapping() {
    match dispatch("POST", Some("a=1&b=2&a=3".to_string())) {
        Ok(RequestPlan::PostForm(params)) => {
            assert_eq!(
                params,
                vec![("a".to_string(), "3".to_string()), ("b".to_string(), "2".to_string())]
            );
        },
        _ => panic!("expected a form-encoded POST plan"),
    }
}

#[test]
fn last_value_wins_on_duplicate_keys() {
    let params = parse_data("a=1&b=2&a=3");
    assert_eq!(
        params,
        vec![("a".to_string(), "3".to_string()), ("b".to_string(), "2".to_string())]
    );
}

#[test]
fn pair_without_equals_has_empty_value() {
    let params = parse_data("flag&k=v");
    assert_eq!(
        params,
        vec![("flag".to_string(), "".to_string()), ("k".to_string(), "v".to_string())]
    );
}

#[test]
fn value_keeps_later_equals_signs() {
    let params = parse_data("k=a=b");
    assert_eq!(params, vec![("k".to_string(), "a=b".to_string())]);
}

#[test]
fn empty_body_gives_one_empty_pair() {
    let params = parse_data("");
    assert_eq!(params, vec![("".to_string(), "".to_string())]);
}

#[test]
fn successful_response_yields_its_body() {
    let r = interpret_response(TransportOutcome::Response(200, Some("hello".to_string())));
    assert_eq!(r.unwrap(), "hello");
    let r = interpret_response(TransportOutcome::Response(299, Some("edge".to_string())));
    assert_eq!(r.unwrap(), "edge");
}

#[test]
fn non_success_status_is_an_error() {
    match interpret_response(TransportOutcome::Response(404, Some("ignored".to_string()))) {
        Err(RequestFailure::HttpStatusError(c)) => assert_eq!(c, 404),
        _ => panic!("expected a status failure"),
    }
    match interpret_response(TransportOutcome::Response(301, None)) {
        Err(RequestFailure::HttpStatusError(c)) => assert_eq!(c, 301),
        _ => panic!("expected a status failure"),
    }
}

#[test]
fn undecodable_body_is_an_error() {
    assert!(matches!(
        interpret_response(TransportOutcome::Response(200, None)),
        Err(RequestFailure::BodyDecodeError)
    ));
}

#[test]
fn transport_failures_are_distinguished() {
    assert!(matches!(
        interpret_response(TransportOutcome::ConnectFailure),
        Err(RequestFailure::ConnectionError)
    ));
    match interpret_response(TransportOutcome::OtherFailure("timed out".to_string())) {
        Err(RequestFailure::TransportError(m)) => assert_eq!(m, "timed out"),
        _ => panic!("expected a transport failure"),
    }
}

#[test]
fn failure_messages() {
    assert_eq!(
        failure_message(&RequestFailure::UnsupportedMethod("PUT".to_string())),
        "Unsupported HTTP method: PUT"
    );
    assert_eq!(
        failure_message(&RequestFailure::HttpStatusError(404)),
        "Request failed with status code: 404."
    );
    assert_eq!(
        failure_message(&RequestFailure::BodyDecodeError),
        "Failed to read response text."
    );
    assert_eq!(
        failure_message(&RequestFailure::ConnectionError),
        "Unable to connect to the server. Perhaps the network is offline or the server hostname cannot be resolved."
    );
    assert_eq!(
        failure_message(&RequestFailure::TransportError("boom".to_string())),
        "Request Error: boom"
    );
}
