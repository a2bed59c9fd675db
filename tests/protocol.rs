use nodejs_render::protocol::{
    decode_payload, interpret_output, interpret_with_payload, join_first, strip_prefix, Payload,
    RenderOutcome,
};

fn lines(v: &[&str]) -> Vec<String> {
    v.iter().map(|s| s.to_string()).collect()
}

fn ctx() -> String {
    "/pages/index".to_string()
}

fn failure(r: RenderOutcome) -> (String, String, String) {
    match r {
        RenderOutcome::Failure(i) => (i.context, i.message, i.logging),
        RenderOutcome::Success(s) => panic!("unexpected success: {}", s),
    }
}

#[test]
fn result_string_is_success() {
    let r = interpret_output(&ctx(), &lines(&["debug: starting", "RESULT=\"<p>hi</p>\""]));
    match r {
        RenderOutcome::Success(s) => assert_eq!(s, "<p>hi</p>"),
        _ => panic!("expected success"),
    }
}

#[test]
fn result_non_string_is_failure_with_all_lines() {
    let (c, m, l) = failure(interpret_output(&ctx(), &lines(&["RESULT=42"])));
    assert_eq!(c, "/pages/index");
    assert_eq!(m, "Result provided by Node.js rendering process was not a string");
    assert_eq!(l, "RESULT=42");
}

#[test]
fn error_string_is_message_without_last_line() {
    let (_, m, l) = failure(interpret_output(&ctx(), &lines(&["stack trace line 1", "ERROR=\"boom\""])));
    assert_eq!(m, "boom");
    assert_eq!(l, "stack trace line 1");
}

#[test]
fn error_non_string_is_rendered_compact() {
    let (_, m, l) = failure(interpret_output(&ctx(), &lines(&["a", "b", "ERROR={ \"code\" : 7 }"])));
    assert_eq!(m, "{\"code\":7}");
    assert_eq!(l, "a\nb");
}

#[test]
fn no_prefix_is_no_result() {
    let (_, m, l) = failure(interpret_output(&ctx(), &lines(&["nothing useful"])));
    assert_eq!(m, "No result provided by Node.js process");
    assert_eq!(l, "nothing useful");
}

#[test]
fn no_lines_is_no_content() {
    let (_, m, l) = failure(interpret_output(&ctx(), &lines(&[])));
    assert_eq!(m, "No content received from Node.js process.");
    assert_eq!(l, "");
}

#[test]
fn malformed_payload_is_failure() {
    let (_, m, l) = failure(interpret_output(&ctx(), &lines(&["RESULT=<p>"])));
    assert_eq!(m, "No result provided by Node.js process");
    assert_eq!(l, "RESULT=<p>");
    let (_, m, l) = failure(interpret_output(&ctx(), &lines(&["x", "ERROR=oops"])));
    assert_eq!(m, "No result provided by Node.js process");
    assert_eq!(l, "x\nERROR=oops");
}

#[test]
fn prefix_must_be_on_last_line() {
    let (_, m, l) = failure(interpret_output(&ctx(), &lines(&["RESULT=\"x\"", "trailing"])));
    assert_eq!(m, "No result provided by Node.js process");
    assert_eq!(l, "RESULT=\"x\"\ntrailing");
}

#[test]
fn round_trip_of_escaped_markup() {
    let original = "<div class=\"a\">line one\nline \"two\"\t\\ end</div>";
    let encoded = serde_json::to_string(original).unwrap();
    let line = format!("RESULT={}", encoded);
    match interpret_output(&ctx(), &vec!["log".to_string(), line]) {
        RenderOutcome::Success(s) => assert_eq!(s, original),
        _ => panic!("expected success"),
    }
}

#[test]
fn decode_payload_kinds() {
    match decode_payload("\"a\\nb\"") {
        Payload::Text(t) => assert_eq!(t, "a\nb"),
        _ => panic!("expected text"),
    }
    match decode_payload("[1, 2]") {
        Payload::Json(j) => assert_eq!(j, "[1,2]"),
        _ => panic!("expected json"),
    }
    assert!(matches!(decode_payload("{"), Payload::Malformed));
}

#[test]
fn interpret_with_given_payloads() {
    let out = lines(&["log", "ERROR=ignored"]);
    let (_, m, l) = failure(interpret_with_payload(&ctx(), &out, Payload::Text("given".to_string())));
    assert_eq!(m, "given");
    assert_eq!(l, "log");
    let (_, m, _) = failure(interpret_with_payload(&ctx(), &out, Payload::Json("null".to_string())));
    assert_eq!(m, "null");
    let (_, m, l) = failure(interpret_with_payload(&ctx(), &out, Payload::Malformed));
    assert_eq!(m, "No result provided by Node.js process");
    assert_eq!(l, "log\nERROR=ignored");
    let res = lines(&["RESULT=ignored"]);
    match interpret_with_payload(&ctx(), &res, Payload::Text("markup".to_string())) {
        RenderOutcome::Success(s) => assert_eq!(s, "markup"),
        _ => panic!("expected success"),
    }
}

#[test]
fn strip_prefix_cases() {
    assert_eq!(strip_prefix("RESULT=abc", "RESULT="), Some("abc".to_string()));
    assert_eq!(strip_prefix("RESULT=", "RESULT="), Some(String::new()));
    assert_eq!(strip_prefix("RESULT", "RESULT="), None);
    assert_eq!(strip_prefix("xRESULT=1", "RESULT="), None);
}

#[test]
fn join_first_cases() {
    let v = lines(&["a", "b", "c"]);
    assert_eq!(join_first(&v, 0), "");
    assert_eq!(join_first(&v, 1), "a");
    assert_eq!(join_first(&v, 3), "a\nb\nc");
}
