use pishock_bridge::pishock::{check_decoded, check_response};

fn none() -> Vec<String> {
    Vec::new()
}

#[test]
fn json_encoded_answer_is_decoded() {
    assert!(check_response(200, "\"Operation Succeeded.\"", &none()).is_ok());
    assert!(check_response(200, " \"Operation Attempted.\" ", &none()).is_ok());
}

#[test]
fn raw_answer_is_taken_as_is() {
    assert!(check_response(200, "Operation Attempted.", &none()).is_ok());
    assert!(check_response(299, "  Operation Succeeded.\n", &none()).is_ok());
}

#[test]
fn bad_status_is_refused() {
    assert_eq!(
        check_response(500, "Operation Attempted.", &none()),
        Err("PiShock HTTP 500: Operation Attempted.".to_string())
    );
    assert_eq!(check_response(300, "Operation Attempted.", &none()).unwrap_err(), "PiShock HTTP 300: Operation Attempted.");
}

#[test]
fn decoded_refusal_shows_the_text() {
    assert_eq!(
        check_response(200, "\"Share code not found.\"", &none()),
        Err("PiShock HTTP 200: Share code not found.".to_string())
    );
}

#[test]
fn secrets_are_redacted() {
    let secrets = vec!["SECRET".to_string(), String::new(), "key".to_string()];
    assert_eq!(
        check_response(403, "bad key SECRET SECRET", &secrets),
        Err("PiShock HTTP 403: bad [redacted] [redacted] [redacted]".to_string())
    );
}

#[test]
fn empty_and_control_characters() {
    assert_eq!(check_response(403, "", &none()), Err("PiShock HTTP 403: empty response".to_string()));
    assert_eq!(check_response(200, " \n\t ", &none()), Err("PiShock HTTP 200: empty response".to_string()));
    assert_eq!(check_decoded(502, "a\nb\u{7}c", &none()), Err("PiShock HTTP 502: a b c".to_string()));
}

#[test]
fn long_answers_are_cut() {
    let long = "x".repeat(400);
    let err = check_response(500, &long, &none()).unwrap_err();
    assert_eq!(err, format!("PiShock HTTP 500: {}", "x".repeat(300)));
}
