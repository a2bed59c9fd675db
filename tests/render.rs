use nodejs_render::protocol::{RenderOutcome, RenderingIssue};
use nodejs_render::render::{error_page, render_static, respond};

fn lines(v: &[&str]) -> Vec<String> {
    v.iter().map(|s| s.to_string()).collect()
}

#[test]
fn error_page_layout() {
    assert_eq!(
        error_page("boom", "l1\nl2"),
        "<h1>Error during rendering</h1>\n<h2>Message</h2>\n<pre>boom</pre>\n<h2>Logs</h2>\n<pre>l1\nl2</pre>"
    );
}

#[test]
fn success_passes_markup_through() {
    let r = render_static(&"/p".to_string(), &lines(&["RESULT=\"<p>hi</p>\""]));
    assert_eq!(r.html, "<p>hi</p>");
    assert!(r.issue.is_none());
}

#[test]
fn failure_page_and_single_issue() {
    let cases: Vec<Vec<String>> = vec![
        lines(&["RESULT=42"]),
        lines(&["stack trace line 1", "ERROR=\"boom\""]),
        lines(&["nothing useful"]),
        lines(&[]),
        lines(&["RESULT=not json"]),
    ];
    for out in cases {
        let r = render_static(&"/p".to_string(), &out);
        let issue = r.issue.expect("a failure reports its issue");
        assert_eq!(issue.context, "/p");
        assert!(r.html.contains(&format!("<pre>{}</pre>", issue.message)));
        assert!(r.html.contains(&format!("<pre>{}</pre>", issue.logging)));
    }
}

#[test]
fn failure_page_exact() {
    let r = render_static(&"/p".to_string(), &lines(&["stack trace line 1", "ERROR=\"boom\""]));
    assert_eq!(
        r.html,
        "<h1>Error during rendering</h1>\n<h2>Message</h2>\n<pre>boom</pre>\n<h2>Logs</h2>\n<pre>stack trace line 1</pre>"
    );
    let issue = r.issue.unwrap();
    assert_eq!(issue.message, "boom");
    assert_eq!(issue.logging, "stack trace line 1");
}

#[test]
fn malformed_payload_degrades_to_page() {
    for out in [lines(&["RESULT=nope"]), lines(&["log", "ERROR={"])] {
        let r = render_static(&"/p".to_string(), &out);
        let issue = r.issue.expect("a protocol violation reports its issue");
        assert_eq!(issue.message, "No result provided by Node.js process");
        assert_eq!(issue.logging, out.join("\n"));
        assert_eq!(r.html, error_page(&issue.message, &issue.logging));
    }
}

#[test]
fn respond_to_outcomes() {
    let ok = respond(RenderOutcome::Success("<b>x</b>".to_string()));
    assert_eq!(ok.html, "<b>x</b>");
    assert!(ok.issue.is_none());
    let failed = respond(RenderOutcome::Failure(RenderingIssue {
        context: "/c".to_string(),
        message: "m".to_string(),
        logging: String::new(),
    }));
    assert_eq!(failed.html, error_page("m", ""));
    assert_eq!(failed.issue.unwrap().message, "m");
}
