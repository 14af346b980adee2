use error_classifier::boundary::{lift_database_error, lift_io_error};
use error_classifier::classify::{
    classify, lift_database_message, lift_io_message, ErrorResponse, FailureReason,
};

#[test]
fn statuses_follow_fixed_table() {
    let cases: Vec<(FailureReason, u16)> = vec![
        (FailureReason::DatabaseFailure(String::from("boom")), 500),
        (FailureReason::IOFailure(String::from("boom")), 500),
        (FailureReason::BadRequest(String::from("boom")), 400),
        (FailureReason::InternalFailure(String::from("boom")), 500),
        (FailureReason::Unauthorized, 401),
    ];
    for (reason, expected) in cases {
        assert_eq!(reason.status_code(), expected);
        let (code, body) = classify(reason);
        assert_eq!(code, expected);
        assert_eq!(body.status_code, expected);
    }
}

#[test]
fn classify_is_total_on_empty_and_odd_text() {
    let cases = vec![
        FailureReason::DatabaseFailure(String::new()),
        FailureReason::IOFailure(String::new()),
        FailureReason::BadRequest(String::new()),
        FailureReason::InternalFailure(String::from("\u{0}\n\t\"\\ weird \u{e9}\u{4e16}")),
        FailureReason::Unauthorized,
    ];
    for reason in cases {
        let (code, body) = classify(reason);
        assert_eq!(body.status_code, code);
    }
}

#[test]
fn scenario_bad_request() {
    let (code, body) = classify(FailureReason::BadRequest(String::from("missing field X")));
    assert_eq!(code, 400);
    assert_eq!(body.status_code, 400);
    assert_eq!(body.message, "missing field X");
}

#[test]
fn scenario_unauthorized() {
    let (code, body) = classify(FailureReason::Unauthorized);
    assert_eq!(code, 401);
    assert_eq!(body.message, "UNAUTHORIZED please login first..");
}

#[test]
fn scenario_database_failure() {
    let e = surrealdb::Error::internal(String::from("connection refused"));
    let reason = lift_database_error(e);
    assert!(matches!(reason, FailureReason::DatabaseFailure(_)));
    let (code, body) = classify(reason);
    assert_eq!(code, 500);
    assert!(body.message.contains("connection refused"));
    assert_eq!(body.message, "DatabaseError: connection refused");
}

#[test]
fn scenario_internal_failure() {
    let (code, body) = classify(FailureReason::InternalFailure(String::from(
        "invariant violated",
    )));
    assert_eq!(code, 500);
    assert_eq!(body.message, "invariant violated");
}

#[test]
fn lift_io_error_wraps_message() {
    let e = std::io::Error::new(std::io::ErrorKind::NotFound, "disk offline");
    let reason = lift_io_error(e);
    assert!(matches!(reason, FailureReason::IOFailure(_)));
    let (code, body) = classify(reason);
    assert_eq!(code, 500);
    assert_eq!(body.message, "IOError: disk offline");
}

#[test]
fn lift_message_constructors_are_exact() {
    match lift_database_message(String::from("a b")) {
        FailureReason::DatabaseFailure(text) => assert_eq!(text, "a b"),
        _ => panic!("expected a database failure"),
    }
    match lift_io_message(String::from("c d")) {
        FailureReason::IOFailure(text) => assert_eq!(text, "c d"),
        _ => panic!("expected an I/O failure"),
    }
}

#[test]
fn response_record_keeps_its_fields() {
    let body = ErrorResponse::new(418, String::from("teapot"));
    assert_eq!(body.status_code, 418);
    assert_eq!(body.message, "teapot");
}
