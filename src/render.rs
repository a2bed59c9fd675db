use vstd::prelude::*;

use crate::json::{json_compact_text, json_string_value};
use crate::protocol::{
    error_prefix, interpret_output, interpret_spec, join_lines, line_views, no_result_message,
    result_prefix, strip_prefix_spec, terminal_doc, IssueView, OutcomeView, RenderOutcome,
    RenderingIssue,
};

verus! {

pub open spec fn page_heading() -> Seq<char> {
    "<h1>Error during rendering</h1>\n<h2>Message</h2>\n"@
}

pub open spec fn logs_heading() -> Seq<char> {
    "\n<h2>Logs</h2>\n"@
}

/// `x` inside a `<pre>` block.
pub open spec fn pre_block(x: Seq<char>) -> Seq<char> {
    "<pre>"@ + x + "</pre>"@
}

/// The fallback page shown for a failed render.
pub open spec fn error_page_spec(message: Seq<char>, logging: Seq<char>) -> Seq<char> {
    page_heading() + pre_block(message) + logs_heading() + pre_block(logging)
}

/// `t` stands somewhere in `s` as a contiguous run.
pub open spec fn has_infix(s: Seq<char>, t: Seq<char>) -> bool {
    exists|i: int| 0 <= i && i + t.len() <= s.len() && #[trigger] s.subrange(i, i + t.len()) == t
}

/// Builds the fallback page for a failure message and its log.
pub fn error_page(message: &str, logging: &str) -> (r: String)
    ensures
        r@ == error_page_spec(message@, logging@),
{
    let mut out = String::from_str("<h1>Error during rendering</h1>\n<h2>Message</h2>\n");
    out.append("<pre>");
    out.append(message);
    out.append("</pre>");
    out.append("\n<h2>Logs</h2>\n");
    out.append("<pre>");
    out.append(logging);
    out.append("</pre>");
    assert(out@ =~= error_page_spec(message@, logging@));
    out
}

/// What a render hands back: the HTML document, and the issue to report
/// when the render failed.
pub struct RenderResponse {
    pub html: String,
    pub issue: Option<RenderingIssue>,
}

pub struct ResponseView {
    pub html: Seq<char>,
    pub issue: Option<IssueView>,
}

impl View for RenderResponse {
    type V = ResponseView;

    open spec fn view(&self) -> ResponseView {
        ResponseView {
            html: self.html@,
            issue: match self.issue {
                Some(i) => Some(i@),
                None => None,
            },
        }
    }
}

/// Markup passes through; a failure becomes the fallback page and is
/// reported once.
pub open spec fn response_spec(o: OutcomeView) -> ResponseView {
    match o {
        OutcomeView::Success(markup) => ResponseView { html: markup, issue: None },
        OutcomeView::Failure(i) => ResponseView {
            html: error_page_spec(i.message, i.logging),
            issue: Some(i),
        },
    }
}

/// Turns an outcome into the document to return and the issue to report.
pub fn respond(outcome: RenderOutcome) -> (r: RenderResponse)
    ensures
        r@ == response_spec(outcome@),
{
    match outcome {
        RenderOutcome::Success(markup) => RenderResponse { html: markup, issue: None },
        RenderOutcome::Failure(i) => {
            let html = error_page(i.message.as_str(), i.logging.as_str());
            RenderResponse { html, issue: Some(i) }
        },
    }
}

/// Renders from a worker's output lines: the markup on success; otherwise
/// the fallback page together with the issue to report. A render failure
/// always degrades to a page, never to an error.
pub fn render_static(context: &String, lines: &Vec<String>) -> (r: RenderResponse)
    ensures
        r@ == response_spec(interpret_spec(context@, line_views(lines@))),
{
    respond(interpret_output(context, lines))
}

/// A failed render returns a page that shows the failure's message and its
/// whole log, each in a `<pre>` block, and reports exactly that one issue.
pub proof fn lemma_failure_page_shows_issue(i: IssueView)
    ensures
        response_spec(OutcomeView::Failure(i)).issue == Some(i),
        has_infix(response_spec(OutcomeView::Failure(i)).html, pre_block(i.message)),
        has_infix(response_spec(OutcomeView::Failure(i)).html, pre_block(i.logging)),
{
    let page = error_page_spec(i.message, i.logging);
    let m = pre_block(i.message);
    let l = pre_block(i.logging);
    let h = page_heading().len() as int;
    let k = h + m.len() + logs_heading().len();
    assert(page.subrange(h, h + m.len()) =~= m);
    assert(page.subrange(k, k + l.len()) =~= l);
}

/// A last line with a `RESULT=` or `ERROR=` prefix but no JSON after it is a
/// protocol violation: it degrades to the fallback page, reported as one
/// issue that carries the whole output as its log.
pub proof fn lemma_malformed_payload_degrades(context: Seq<char>, lines: Seq<Seq<char>>)
    requires
        lines.len() > 0,
        strip_prefix_spec(lines.last(), result_prefix()) is Some || strip_prefix_spec(
            lines.last(),
            error_prefix(),
        ) is Some,
        json_string_value(terminal_doc(lines.last())) is None,
        json_compact_text(terminal_doc(lines.last())) is None,
    ensures
        response_spec(interpret_spec(context, lines)) == (ResponseView {
            html: error_page_spec(no_result_message(), join_lines(lines)),
            issue: Some(IssueView { context, message: no_result_message(), logging: join_lines(lines) }),
        }),
{
}

} // verus!
