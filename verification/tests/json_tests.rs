use error_classifier::classify::{classify, ErrorResponse, FailureReason};
use error_classifier::json::{error_response, parse_json, to_json};

#[test]
fn encoding_has_the_fixed_shape() {
    let body = ErrorResponse::new(400, String::from("missing field X"));
    assert_eq!(
        to_json(&body),
        "{\"status_code\":400,\"message\":\"missing field X\"}"
    );
}

#[test]
fn encoding_of_unauthorized_scenario() {
    let (_, body) = classify(FailureReason::Unauthorized);
    assert_eq!(
        to_json(&body),
        "{\"status_code\":401,\"message\":\"UNAUTHORIZED please login first..\"}"
    );
}

#[test]
fn encoding_escapes_quotes_backslashes_and_controls() {
    let body = ErrorResponse::new(500, String::from("a\"b\\c\nd\te"));
    assert_eq!(
        to_json(&body),
        "{\"status_code\":500,\"message\":\"a\\\"b\\\\c\\u000ad\\u0009e\"}"
    );
}

#[test]
fn round_trip_plain_message() {
    let body = ErrorResponse::new(400, String::from("missing field X"));
    let back = parse_json(&to_json(&body)).expect("the encoding must parse back");
    assert_eq!(back.status_code, 400);
    assert_eq!(back.message, "missing field X");
}

#[test]
fn round_trip_empty_message_and_zero_status() {
    let body = ErrorResponse::new(0, String::new());
    let back = parse_json(&to_json(&body)).expect("the encoding must parse back");
    assert_eq!(back.status_code, 0);
    assert_eq!(back.message, "");
}

#[test]
fn round_trip_with_escapes_and_unicode() {
    let message = String::from("quote \" backslash \\ newline \n nul \u{0} wide \u{4e16}\u{e9}");
    let body = ErrorResponse::new(65535, message.clone());
    let back = parse_json(&to_json(&body)).expect("the encoding must parse back");
    assert_eq!(back.status_code, 65535);
    assert_eq!(back.message, message);
}

#[test]
fn serde_json_reads_the_encoding() {
    let (_, body) = classify(FailureReason::DatabaseFailure(String::from(
        "connection refused",
    )));
    let text = to_json(&body);
    let value: serde_json::Value = serde_json::from_str(&text).expect("the body must be JSON");
    assert_eq!(
        value.get("status_code").and_then(|v| v.as_u64()),
        Some(500)
    );
    assert_eq!(
        value.get("message").and_then(|v| v.as_str()),
        Some("DatabaseError: connection refused")
    );
}

#[test]
fn serde_json_reads_escaped_controls() {
    let body = ErrorResponse::new(500, String::from("line\nbreak\u{1}"));
    let text = to_json(&body);
    let value: serde_json::Value = serde_json::from_str(&text).expect("the body must be JSON");
    assert_eq!(
        value.get("message").and_then(|v| v.as_str()),
        Some("line\nbreak\u{1}")
    );
}

#[test]
fn error_response_builds_status_and_body() {
    let (code, text) = error_response(FailureReason::BadRequest(String::from("missing field X")));
    assert_eq!(code, 400);
    assert_eq!(text, "{\"status_code\":400,\"message\":\"missing field X\"}");
    let (code, text) = error_response(FailureReason::IOFailure(String::from("disk offline")));
    assert_eq!(code, 500);
    assert_eq!(text, "{\"status_code\":500,\"message\":\"IOError: disk offline\"}");
}

#[test]
fn parser_rejects_other_shapes() {
    assert!(parse_json("").is_none());
    assert!(parse_json("{}").is_none());
    assert!(parse_json("not json at all").is_none());
    assert!(parse_json("{\"status_code\":,\"message\":\"x\"}").is_none());
    assert!(parse_json("{\"status_code\":400,\"message\":\"x\"").is_none());
    assert!(parse_json("{\"status_code\":400,\"message\":\"x\"} ").is_none());
    assert!(parse_json("{\"status_code\":400,\"message\":\"x}").is_none());
    assert!(parse_json("{\"status_code\":70000,\"message\":\"x\"}").is_none());
    assert!(parse_json("{\"status_code\":400,\"message\":\"\\q\"}").is_none());
    assert!(parse_json("{\"status_code\":400,\"message\":\"\\u0141\"}").is_none());
}

#[test]
fn parser_accepts_exactly_the_encoder_escapes() {
    let text = "{\"status_code\":401,\"message\":\"a\\\\b\\\"c\\u0000d\\u0041\"}";
    let back = parse_json(text).expect("the canonical escapes must parse");
    assert_eq!(back.status_code, 401);
    assert_eq!(back.message, "a\\b\"c\u{0}dA");
}
