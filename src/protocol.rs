use vstd::prelude::*;

use crate::json::{compact_json, decode_json_string, json_compact_text, json_string_value};

verus! {

/// What a worker's last line carried after its `RESULT=` or `ERROR=` prefix,
/// once read as JSON.
pub enum Payload {
    /// A JSON string, decoded.
    Text(String),
    /// Any other JSON value, in compact form.
    Json(String),
    /// Not JSON at all: a protocol violation.
    Malformed,
}

pub enum PayloadView {
    Text(Seq<char>),
    Json(Seq<char>),
    Malformed,
}

impl View for Payload {
    type V = PayloadView;

    open spec fn view(&self) -> PayloadView {
        match self {
            Payload::Text(t) => PayloadView::Text(t@),
            Payload::Json(j) => PayloadView::Json(j@),
            Payload::Malformed => PayloadView::Malformed,
        }
    }
}

/// How a JSON document reads as a payload.
pub open spec fn payload_of(doc: Seq<char>) -> PayloadView {
    match json_string_value(doc) {
        Some(t) => PayloadView::Text(t),
        None => match json_compact_text(doc) {
            Some(j) => PayloadView::Json(j),
            None => PayloadView::Malformed,
        },
    }
}

/// Reads a payload document as JSON.
pub fn decode_payload(doc: &str) -> (r: Payload)
    ensures
        r@ == payload_of(doc@),
{
    match decode_json_string(doc) {
        Some(t) => Payload::Text(t),
        None => match compact_json(doc) {
            Some(j) => Payload::Json(j),
            None => Payload::Malformed,
        },
    }
}

/// A failed render: where it was attempted, what went wrong, and the worker
/// output that goes with it.
pub struct RenderingIssue {
    pub context: String,
    pub message: String,
    pub logging: String,
}

pub struct IssueView {
    pub context: Seq<char>,
    pub message: Seq<char>,
    pub logging: Seq<char>,
}

impl View for RenderingIssue {
    type V = IssueView;

    open spec fn view(&self) -> IssueView {
        IssueView { context: self.context@, message: self.message@, logging: self.logging@ }
    }
}

/// What one exchange with a worker came to.
pub enum RenderOutcome {
    Success(String),
    Failure(RenderingIssue),
}

pub enum OutcomeView {
    Success(Seq<char>),
    Failure(IssueView),
}

impl View for RenderOutcome {
    type V = OutcomeView;

    open spec fn view(&self) -> OutcomeView {
        match self {
            RenderOutcome::Success(s) => OutcomeView::Success(s@),
            RenderOutcome::Failure(i) => OutcomeView::Failure(i@),
        }
    }
}

pub open spec fn result_prefix() -> Seq<char> {
    seq!['R', 'E', 'S', 'U', 'L', 'T', '=']
}

pub open spec fn error_prefix() -> Seq<char> {
    seq!['E', 'R', 'R', 'O', 'R', '=']
}

/// The rest of `line` after `prefix`, when `line` starts with it.
pub open spec fn strip_prefix_spec(line: Seq<char>, prefix: Seq<char>) -> Option<Seq<char>> {
    if line.len() >= prefix.len() && line.subrange(0, prefix.len() as int) == prefix {
        Some(line.subrange(prefix.len() as int, line.len() as int))
    } else {
        None
    }
}

/// The document that a terminal line carries after `RESULT=` or `ERROR=`.
pub open spec fn terminal_doc(line: Seq<char>) -> Seq<char> {
    match strip_prefix_spec(line, result_prefix()) {
        Some(d) => d,
        None => match strip_prefix_spec(line, error_prefix()) {
            Some(d) => d,
            None => Seq::empty(),
        },
    }
}

/// Lines joined with a newline between each two.
pub open spec fn join_lines(lines: Seq<Seq<char>>) -> Seq<char>
    decreases lines.len(),
{
    if lines.len() == 0 {
        Seq::empty()
    } else if lines.len() == 1 {
        lines[0]
    } else {
        join_lines(lines.drop_last()) + seq!['\n'] + lines.last()
    }
}

pub open spec fn line_views(lines: Seq<String>) -> Seq<Seq<char>> {
    lines.map_values(|l: String| l@)
}

pub open spec fn no_content_message() -> Seq<char> {
    "No content received from Node.js process."@
}

pub open spec fn not_a_string_message() -> Seq<char> {
    "Result provided by Node.js rendering process was not a string"@
}

pub open spec fn no_result_message() -> Seq<char> {
    "No result provided by Node.js process"@
}

pub open spec fn issue(context: Seq<char>, message: Seq<char>, logging: Seq<char>) -> OutcomeView {
    OutcomeView::Failure(IssueView { context, message, logging })
}

/// How a worker's output reads, given how the document on its last line
/// reads as JSON (`payload` matters only where that line has a prefix).
/// Every protocol violation is a failure, never a hard error: a prefixed
/// document that is not JSON counts as no result, with the whole output as log.
pub open spec fn outcome_spec(context: Seq<char>, lines: Seq<Seq<char>>, payload: PayloadView) -> OutcomeView {
    if lines.len() == 0 {
        issue(context, no_content_message(), Seq::empty())
    } else if strip_prefix_spec(lines.last(), result_prefix()) is Some {
        match payload {
            PayloadView::Text(t) => OutcomeView::Success(t),
            PayloadView::Json(_) => issue(context, not_a_string_message(), join_lines(lines)),
            PayloadView::Malformed => issue(context, no_result_message(), join_lines(lines)),
        }
    } else if strip_prefix_spec(lines.last(), error_prefix()) is Some {
        match payload {
            PayloadView::Text(t) => issue(context, t, join_lines(lines.drop_last())),
            PayloadView::Json(j) => issue(context, j, join_lines(lines.drop_last())),
            PayloadView::Malformed => issue(context, no_result_message(), join_lines(lines)),
        }
    } else {
        issue(context, no_result_message(), join_lines(lines))
    }
}

/// The outcome of a worker's output, its last line's document read as JSON.
pub open spec fn interpret_spec(context: Seq<char>, lines: Seq<Seq<char>>) -> OutcomeView {
    outcome_spec(
        context,
        lines,
        if lines.len() == 0 {
            PayloadView::Malformed
        } else {
            payload_of(terminal_doc(lines.last()))
        },
    )
}

/// Cuts `prefix` off the front of `line`.
pub fn strip_prefix(line: &str, prefix: &str) -> (r: Option<String>)
    ensures
        r is Some <==> strip_prefix_spec(line@, prefix@) is Some,
        r matches Some(t) ==> strip_prefix_spec(line@, prefix@) == Some(t@),
{
    let line_len = line.unicode_len();
    let prefix_len = prefix.unicode_len();
    if line_len < prefix_len {
        return None;
    }
    let head = String::from_str(line.substring_char(0, prefix_len));
    let prefix_owned = String::from_str(prefix);
    if head == prefix_owned {
        Some(String::from_str(line.substring_char(prefix_len, line_len)))
    } else {
        None
    }
}

/// The first `count` lines, joined with newlines.
pub fn join_first(lines: &Vec<String>, count: usize) -> (r: String)
    requires
        count <= lines@.len(),
    ensures
        r@ == join_lines(line_views(lines@).subrange(0, count as int)),
{
    let ghost views = line_views(lines@);
    let mut out = String::new();
    let mut i: usize = 0;
    proof {
        reveal_strlit("\n");
        assert(views.subrange(0, 0) =~= Seq::<Seq<char>>::empty());
    }
    while i < count
        invariant
            count <= lines@.len(),
            views == line_views(lines@),
            i <= count,
            out@ == join_lines(views.subrange(0, i as int)),
        decreases count - i,
    {
        let ghost before = out@;
        if i > 0 {
            out.append("\n");
        }
        out.append(lines[i].as_str());
        proof {
            reveal_strlit("\n");
            let next = views.subrange(0, i + 1);
            assert(next.drop_last() =~= views.subrange(0, i as int));
            assert(next.last() == lines@[i as int]@);
            if i == 0 {
                assert(out@ =~= next[0]);
            } else {
                assert(out@ =~= before + seq!['\n'] + next.last());
            }
        }
        i = i + 1;
    }
    out
}

fn failure(context: &String, message: String, logging: String) -> (r: RenderOutcome)
    ensures
        r@ == issue(context@, message@, logging@),
{
    RenderOutcome::Failure(RenderingIssue { context: context.clone(), message, logging })
}

/// Reads a worker's output, with the document on its last line already read
/// as JSON into `payload`. Every protocol violation becomes a failure.
pub fn interpret_with_payload(context: &String, lines: &Vec<String>, payload: Payload) -> (r: RenderOutcome)
    ensures
        r@ == outcome_spec(context@, line_views(lines@), payload@),
{
    let ghost views = line_views(lines@);
    let n = lines.len();
    if n == 0 {
        return failure(context, String::from_str("No content received from Node.js process."), String::new());
    }
    proof {
        reveal_strlit("RESULT=");
        reveal_strlit("ERROR=");
        assert("RESULT="@ =~= result_prefix());
        assert("ERROR="@ =~= error_prefix());
        assert(views.last() == lines@[n - 1]@);
        assert(views.subrange(0, n as int) =~= views);
        assert(views.subrange(0, n - 1) =~= views.drop_last());
    }
    let last = lines[n - 1].as_str();
    if strip_prefix(last, "RESULT=").is_some() {
        match payload {
            Payload::Text(t) => RenderOutcome::Success(t),
            Payload::Json(_) => {
                let log = join_first(lines, n);
                failure(context, String::from_str("Result provided by Node.js rendering process was not a string"), log)
            },
            Payload::Malformed => {
                let log = join_first(lines, n);
                failure(context, String::from_str("No result provided by Node.js process"), log)
            },
        }
    } else if strip_prefix(last, "ERROR=").is_some() {
        match payload {
            Payload::Text(t) => failure(context, t, join_first(lines, n - 1)),
            Payload::Json(j) => failure(context, j, join_first(lines, n - 1)),
            Payload::Malformed => {
                let log = join_first(lines, n);
                failure(context, String::from_str("No result provided by Node.js process"), log)
            },
        }
    } else {
        let log = join_first(lines, n);
        failure(context, String::from_str("No result provided by Node.js process"), log)
    }
}

/// Reads a worker's output: its last line decides between the rendered
/// markup and a failure; a prefixed document is read as JSON. Whatever the
/// worker printed, the result is an outcome, never an error.
pub fn interpret_output(context: &String, lines: &Vec<String>) -> (r: RenderOutcome)
    ensures
        r@ == interpret_spec(context@, line_views(lines@)),
{
    let n = lines.len();
    if n == 0 {
        return interpret_with_payload(context, lines, Payload::Malformed);
    }
    let ghost views = line_views(lines@);
    proof {
        reveal_strlit("RESULT=");
        reveal_strlit("ERROR=");
        assert("RESULT="@ =~= result_prefix());
        assert("ERROR="@ =~= error_prefix());
        assert(views.last() == lines@[n - 1]@);
    }
    let last = lines[n - 1].as_str();
    let payload = match strip_prefix(last, "RESULT=") {
        Some(doc) => decode_payload(doc.as_str()),
        None => match strip_prefix(last, "ERROR=") {
            Some(doc) => decode_payload(doc.as_str()),
            None => Payload::Malformed,
        },
    };
    interpret_with_payload(context, lines, payload)
}

/// A last line `RESULT=` followed by a JSON string renders exactly the text
/// that the string stands for, escapes resolved, whatever precedes it.
pub proof fn lemma_result_decodes_exactly(context: Seq<char>, lines: Seq<Seq<char>>, doc: Seq<char>)
    requires
        lines.len() > 0,
        lines.last() == result_prefix() + doc,
        json_string_value(doc) is Some,
    ensures
        interpret_spec(context, lines) == OutcomeView::Success(json_string_value(doc)->0),
{
    let line = lines.last();
    assert(line.subrange(0, result_prefix().len() as int) =~= result_prefix());
    assert(line.subrange(result_prefix().len() as int, line.len() as int) =~= doc);
}

} // verus!
