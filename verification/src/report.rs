//! Lines and texts about what happened: prompts, tool calls and their results,
//! errors, the finished turn, the place the session is at, and the clipboard.
use crate::input::{behind, behind_of, truncate, truncated};
use crate::markdown::{first_word, first_word_of};
use crate::paths::{join_path, path_join, place_name, place_name_of};
use crate::styled::{
    line,
    line_views,
    span,
    span_views,
    styled_line,
    Color,
    Line,
    LineView,
    Span,
    SpanView,
};
use crate::text::{
    char_text,
    chars_of,
    decimal,
    holds,
    is_same_but_case,
    lines,
    lines_of,
    matches_at,
    number,
    same,
    same_but_case,
    slice_of,
    split,
    split_of,
    strings,
    text_of,
    text_option,
    texts,
    trim,
    trim_of,
};
use crate::theme::Palette;
use crate::view::{arrow, seconds_of, seconds_text};
use vstd::prelude::*;
use vstd::string::*;

verus! {

// ---- arguments of tool calls ------------------------------------------------
/// What a key of a JSON object holds.
#[derive(Debug, PartialEq, Eq)]
pub enum JsonField {
    /// There is no such key, or no object.
    Absent,
    Text(String),
    /// Something that is not a string.
    Other,
}

/// What such a field holds.
#[verifier::ext_equal]
pub enum JsonView {
    Absent,
    Text(Seq<char>),
    Other,
}

impl View for JsonField {
    type V = JsonView;

    open spec fn view(&self) -> JsonView {
        match self {
            JsonField::Absent => JsonView::Absent,
            JsonField::Text(t) => JsonView::Text(t@),
            JsonField::Other => JsonView::Other,
        }
    }
}

/// What `serde_json` reads at a key of a document.
pub uninterp spec fn json_at(document: Seq<char>, key: Seq<char>) -> JsonView;

/// Calls `serde_json::from_str` on the document and `Value::get` with the key,
/// and tells strings from other values. Claims only that the result is the named
/// one for that document and key; a document that does not parse has no keys.
#[verifier::external_body]
fn json_field(document: &str, key: &str) -> (r: JsonField)
    ensures
        r@ == json_at(document@, key@),
{
    match serde_json::from_str::<serde_json::Value>(document) {
        Err(_) => JsonField::Absent,
        Ok(value) => match value.get(key) {
            None => JsonField::Absent,
            Some(serde_json::Value::String(text)) => JsonField::Text(text.clone()),
            Some(_) => JsonField::Other,
        },
    }
}

/// The keys of a tool call that a summary or a preview reads.
#[derive(Debug, PartialEq, Eq)]
pub struct CallFields {
    pub command: JsonField,
    pub file_path: JsonField,
    pub path: JsonField,
    pub pattern: JsonField,
    pub msg: JsonField,
    pub old_string: JsonField,
    pub new_string: JsonField,
}

/// What those keys hold.
#[verifier::ext_equal]
pub struct CallView {
    pub command: JsonView,
    pub file_path: JsonView,
    pub path: JsonView,
    pub pattern: JsonView,
    pub msg: JsonView,
    pub old_string: JsonView,
    pub new_string: JsonView,
}

impl View for CallFields {
    type V = CallView;

    open spec fn view(&self) -> CallView {
        CallView {
            command: self.command@,
            file_path: self.file_path@,
            path: self.path@,
            pattern: self.pattern@,
            msg: self.msg@,
            old_string: self.old_string@,
            new_string: self.new_string@,
        }
    }
}

/// The keys of a call's arguments.
pub open spec fn call_in(args: Seq<char>) -> CallView {
    CallView {
        command: json_at(args, "command"@),
        file_path: json_at(args, "file_path"@),
        path: json_at(args, "path"@),
        pattern: json_at(args, "pattern"@),
        msg: json_at(args, "msg"@),
        old_string: json_at(args, "old_string"@),
        new_string: json_at(args, "new_string"@),
    }
}

/// Read the keys of a call's arguments.
pub fn call_fields(args: &str) -> (r: CallFields)
    ensures
        r@ == call_in(args@),
{
    CallFields {
        command: json_field(args, "command"),
        file_path: json_field(args, "file_path"),
        path: json_field(args, "path"),
        pattern: json_field(args, "pattern"),
        msg: json_field(args, "msg"),
        old_string: json_field(args, "old_string"),
        new_string: json_field(args, "new_string"),
    }
}

/// One line about a call: its command, its file, its pattern or its message, in
/// that order, else the arguments themselves.
pub open spec fn call_summary(c: CallView, args: Seq<char>) -> Seq<char> {
    let file = if c.file_path is Absent {
        c.path
    } else {
        c.file_path
    };
    match (c.command, file, c.pattern, c.msg) {
        (JsonView::Text(t), _, _, _) => truncated(t, 80),
        (_, JsonView::Text(t), _, _) => t,
        (_, _, JsonView::Text(t), _) => "pattern="@ + truncated(t, 60),
        (_, _, _, JsonView::Text(t)) => t,
        _ => truncated(args, 80),
    }
}

/// One line about a call whose keys have been read.
pub fn summary_of(c: &CallFields, args: &str) -> (r: String)
    ensures
        r@ == call_summary(c@, args@),
{
    match &c.command {
        JsonField::Text(t) => {
            return truncate(t.as_str(), 80);
        },
        _ => {},
    }
    match &c.file_path {
        JsonField::Text(t) => {
            return t.clone();
        },
        JsonField::Other => {},
        JsonField::Absent => match &c.path {
            JsonField::Text(t) => {
                return t.clone();
            },
            _ => {},
        },
    }
    match &c.pattern {
        JsonField::Text(t) => {
            return "pattern=".to_owned().concat(truncate(t.as_str(), 60).as_str());
        },
        _ => {},
    }
    match &c.msg {
        JsonField::Text(t) => t.clone(),
        _ => truncate(args, 80),
    }
}

/// One line about a call.
pub fn summarize_args(args: &str) -> (r: String)
    ensures
        r@ == call_summary(call_in(args@), args@),
{
    let c: CallFields = call_fields(args);
    summary_of(&c, args)
}

/// The file, the old and the new text of an edit, where the call is one.
pub open spec fn edit_in(c: CallView) -> Option<(Seq<char>, Seq<char>, Seq<char>)> {
    match (c.file_path, c.old_string, c.new_string) {
        (JsonView::Text(p), JsonView::Text(o), JsonView::Text(n)) => Some((p, o, n)),
        _ => None,
    }
}

/// What an optional edit holds.
pub open spec fn edit_option(e: Option<(String, String, String)>) -> Option<
    (Seq<char>, Seq<char>, Seq<char>),
> {
    match e {
        Some((p, o, n)) => Some((p@, o@, n@)),
        None => None,
    }
}

/// The file, the old and the new text of an edit whose keys have been read.
pub fn edit_of(c: &CallFields) -> (r: Option<(String, String, String)>)
    ensures
        edit_option(r) == edit_in(c@),
{
    match (&c.file_path, &c.old_string, &c.new_string) {
        (JsonField::Text(p), JsonField::Text(o), JsonField::Text(n)) => Some(
            (p.clone(), o.clone(), n.clone()),
        ),
        _ => None,
    }
}

/// The file, the old and the new text of an edit.
pub fn edit_args(args: &str) -> (r: Option<(String, String, String)>)
    ensures
        edit_option(r) == edit_in(call_in(args@)),
{
    let c: CallFields = call_fields(args);
    edit_of(&c)
}

/// The rule that would spare the next question: the command's first word for a
/// shell, else the tool.
pub open spec fn rule_for(tool: Seq<char>, command: Option<Seq<char>>) -> Seq<char> {
    if tool == "Bash"@ && command is Some && first_word(command->0).len() > 0 {
        "Bash("@ + first_word(command->0) + ":*)"@
    } else {
        tool
    }
}

/// The rule that would spare the next question.
pub fn suggested_rule(tool: &str, command: &Option<String>) -> (r: String)
    ensures
        r@ == rule_for(tool@, text_option(*command)),
{
    if same(tool, "Bash") {
        match command {
            Some(c) => {
                let chars: Vec<char> = chars_of(c.as_str());
                let first: Vec<char> = first_word_of(chars.as_slice());
                if first.len() > 0 {
                    return "Bash(".to_owned().concat(text_of(first.as_slice()).as_str()).concat(
                        ":*)",
                    );
                }
            },
            None => {},
        }
    }
    tool.to_owned()
}

// ---- lines of a tool call ---------------------------------------------------
/// How a tool call ended.
#[derive(Debug, PartialEq, Eq)]
pub enum ToolResultBody {
    Success { content: String, truncated: bool },
    Failure { message: String },
    Denied { reason: String },
    Interrupted,
}

/// What such a result holds.
#[verifier::ext_equal]
pub enum ResultView {
    Success { content: Seq<char>, truncated: bool },
    Failure { message: Seq<char> },
    Denied { reason: Seq<char> },
    Interrupted,
}

impl View for ToolResultBody {
    type V = ResultView;

    open spec fn view(&self) -> ResultView {
        match self {
            ToolResultBody::Success { content, truncated } => ResultView::Success {
                content: content@,
                truncated: *truncated,
            },
            ToolResultBody::Failure { message } => ResultView::Failure { message: message@ },
            ToolResultBody::Denied { reason } => ResultView::Denied { reason: reason@ },
            ToolResultBody::Interrupted => ResultView::Interrupted,
        }
    }
}

/// The row of a tool call that starts.
pub open spec fn start_line(name: Seq<char>, summary: Seq<char>, p: Palette) -> LineView {
    line(
        seq![span("▸ "@, p.chrome()), span(name, p.body()), span("  "@ + summary, p.chrome())],
    )
}

/// The row of a tool call that starts.
pub fn tool_start_line(name: &str, summary: &str, p: Palette) -> (l: Line)
    ensures
        l@ == start_line(name@, summary@, p),
{
    let mut spans: Vec<Span> = Vec::new();
    spans.push(Span::styled("▸ ", p.chrome()));
    spans.push(Span::styled(name, p.body()));
    spans.push(Span::styled("  ".to_owned().concat(summary).as_str(), p.chrome()));
    assert(span_views(spans@) =~= start_line(name@, summary@, p).spans);
    Line::new(spans)
}

/// The name that a finished call shows.
pub open spec fn shown_name(tool: Seq<char>) -> Seq<char> {
    if trim(tool).len() == 0 || same_but_case(tool, "tool"@) {
        "tool call"@
    } else {
        tool
    }
}

/// How the end of a call shows.
pub open spec fn ending(r: ResultView, p: Palette) -> Seq<SpanView> {
    match r {
        ResultView::Success { .. } => Seq::empty(),
        ResultView::Failure { .. } => seq![span(" · failed"@, p.painted(Color::Red))],
        ResultView::Denied { .. } => seq![span(" · denied"@, p.painted(Color::Yellow))],
        ResultView::Interrupted => seq![span(" · interrupted"@, p.painted(Color::DarkGray))],
    }
}

/// The row of a finished call, its time already written out.
pub open spec fn summary_row(
    tool: Seq<char>,
    r: ResultView,
    seconds: Seq<char>,
    expanded: bool,
    p: Palette,
) -> LineView {
    line(
        seq![
            span(arrow(expanded), p.accent()),
            span(shown_name(tool), p.body()),
            span(" · "@ + seconds + "s"@, p.chrome()),
        ] + ending(r, p),
    )
}

/// The row of a finished call, with its time to two decimal places.
pub open spec fn summary_line(
    tool: Seq<char>,
    r: ResultView,
    elapsed: u64,
    expanded: bool,
    p: Palette,
) -> LineView {
    summary_row(tool, r, seconds_text(elapsed, 2), expanded, p)
}

/// The row of a finished call, its time already written out.
pub fn tool_summary_row(
    tool: &str,
    r: &ToolResultBody,
    seconds: &str,
    expanded: bool,
    p: Palette,
) -> (l: Line)
    ensures
        l@ == summary_row(tool@, r@, seconds@, expanded, p),
{
    let mark: &'static str = if expanded {
        "▾ "
    } else {
        "▸ "
    };
    let c: Vec<char> = chars_of(tool);
    let t: Vec<char> = trim_of(c.as_slice());
    let word: Vec<char> = chars_of("tool");
    let name: &str = if t.len() == 0 || is_same_but_case(c.as_slice(), word.as_slice()) {
        "tool call"
    } else {
        tool
    };
    let mut spans: Vec<Span> = Vec::new();
    spans.push(Span::styled(mark, p.accent()));
    spans.push(Span::styled(name, p.body()));
    spans.push(Span::styled(" · ".to_owned().concat(seconds).concat("s").as_str(), p.chrome()));
    match r {
        ToolResultBody::Success { .. } => {},
        ToolResultBody::Failure { .. } => {
            spans.push(Span::styled(" · failed", p.semantic(Color::Red)));
        },
        ToolResultBody::Denied { .. } => {
            spans.push(Span::styled(" · denied", p.semantic(Color::Yellow)));
        },
        ToolResultBody::Interrupted => {
            spans.push(Span::styled(" · interrupted", p.semantic(Color::DarkGray)));
        },
    }
    assert(span_views(spans@) =~= summary_row(tool@, r@, seconds@, expanded, p).spans);
    Line::new(spans)
}

/// The row of a finished call.
pub fn tool_summary_line(
    tool: &str,
    r: &ToolResultBody,
    elapsed: u64,
    expanded: bool,
    p: Palette,
) -> (l: Line)
    ensures
        l@ == summary_line(tool@, r@, elapsed, expanded, p),
{
    let s: String = seconds_of(elapsed, 2);
    tool_summary_row(tool, r, s.as_str(), expanded, p)
}

/// Some rows in one style, each piece of a text behind a lead.
pub open spec fn led_rows(pieces: Seq<Seq<char>>, lead: Seq<char>, p: Palette) -> Seq<LineView> {
    pieces.map_values(|l: Seq<char>| styled_line(lead + l, p.chrome()))
}

/// The rows behind a finished call: its kind, and everything it said.
pub open spec fn detail_rows(r: ResultView, p: Palette) -> Seq<LineView> {
    let (head, look, body, cut) = match r {
        ResultView::Success { content, truncated } => (
            "  ✓ output"@,
            p.painted(Color::Green),
            content,
            truncated,
        ),
        ResultView::Failure { message } => ("  ✗ error"@, p.painted(Color::Red), message, false),
        ResultView::Denied { reason } => ("  ⊘ denied"@, p.painted(Color::Yellow), reason, false),
        ResultView::Interrupted => (
            "  – interrupted"@,
            p.painted(Color::DarkGray),
            Seq::empty(),
            false,
        ),
    };
    seq![styled_line(head, look)] + (if body.len() > 0 {
        led_rows(split(body, '\n'), "  │ "@, p)
    } else {
        Seq::empty()
    }) + (if cut {
        seq![styled_line("  │ [output truncated]"@, p.chrome())]
    } else {
        Seq::empty()
    })
}

/// Some rows in one style, each piece of a text behind a lead.
fn push_led_rows(out: &mut Vec<Line>, pieces: &Vec<Vec<char>>, lead: &str, p: Palette)
    ensures
        line_views(final(out)@) == line_views(old(out)@) + led_rows(texts(pieces@), lead@, p),
{
    let ghost start = line_views(out@);
    let ghost want = led_rows(texts(pieces@), lead@, p);
    let mut i: usize = 0;
    while i < pieces.len()
        invariant
            i <= pieces@.len(),
            want == led_rows(texts(pieces@), lead@, p),
            want.len() == pieces@.len(),
            line_views(out@) =~= start + want.take(i as int),
        decreases pieces@.len() - i,
    {
        let ghost before = line_views(out@);
        let t: String = lead.to_owned().concat(text_of(pieces[i].as_slice()).as_str());
        let l: Line = Line::styled(t.as_str(), p.chrome());
        let ghost lv = l@;
        assert(texts(pieces@)[i as int] == pieces@[i as int]@);
        assert(lv == want[i as int]);
        out.push(l);
        i += 1;
        assert(line_views(out@) =~= before.push(lv));
    }
    assert(want.take(i as int) =~= want);
}

/// The rows behind a finished call.
pub fn tool_result_detail_lines(r: &ToolResultBody, p: Palette) -> (out: Vec<Line>)
    ensures
        line_views(out@) == detail_rows(r@, p),
{
    let mut out: Vec<Line> = Vec::new();
    let none: String = String::new();
    assert(none@ =~= Seq::<char>::empty());
    let mut cut: bool = false;
    let body: &str = match r {
        ToolResultBody::Success { content, truncated } => {
            out.push(Line::styled("  ✓ output", p.semantic(Color::Green)));
            cut = *truncated;
            content.as_str()
        },
        ToolResultBody::Failure { message } => {
            out.push(Line::styled("  ✗ error", p.semantic(Color::Red)));
            message.as_str()
        },
        ToolResultBody::Denied { reason } => {
            out.push(Line::styled("  ⊘ denied", p.semantic(Color::Yellow)));
            reason.as_str()
        },
        ToolResultBody::Interrupted => {
            out.push(Line::styled("  – interrupted", p.semantic(Color::DarkGray)));
            none.as_str()
        },
    };
    let ghost head = line_views(out@);
    assert(head.len() == 1);
    if !body.is_empty() {
        let chars: Vec<char> = chars_of(body);
        let pieces: Vec<Vec<char>> = split_of(chars.as_slice(), '\n');
        push_led_rows(&mut out, &pieces, "  │ ", p);
    }
    let ghost mid = line_views(out@);
    if cut {
        out.push(Line::styled("  │ [output truncated]", p.chrome()));
        assert(line_views(out@) =~= mid + seq![styled_line("  │ [output truncated]"@, p.chrome())]);
    }
    assert(line_views(out@) =~= detail_rows(r@, p));
    out
}

/// Nothing a call said is left out of the rows behind it: each piece between
/// newlines has its row.
pub proof fn every_output_line_has_its_row(content: Seq<char>, truncated: bool, i: int, p: Palette)
    requires
        content.len() > 0,
        0 <= i < split(content, '\n').len(),
    ensures
        detail_rows(ResultView::Success { content, truncated }, p)[i + 1] == styled_line(
            "  │ "@ + split(content, '\n')[i],
            p.chrome(),
        ),
{
}

// ---- prompts, errors, notices -----------------------------------------------
/// The row of a prompt in the transcript.
pub open spec fn prompt_line(text: Seq<char>, p: Palette) -> LineView {
    styled_line("  > "@ + text + "  "@, p.user_prompt())
}

/// The row of a prompt in the transcript.
pub fn user_prompt_line(text: &str, p: Palette) -> (l: Line)
    ensures
        l@ == prompt_line(text@, p),
{
    let t: String = "  > ".to_owned().concat(text).concat("  ");
    Line::styled(t.as_str(), p.user_prompt())
}

/// The row about a request that succeeded only after retries.
pub open spec fn retry_line(retries: u32, p: Palette) -> LineView {
    styled_line(
        "↻ model request recovered after "@ + decimal(retries as nat) + if retries == 1 {
            " retry"@
        } else {
            " retries"@
        },
        p.chrome(),
    )
}

/// The row about a request that succeeded only after retries.
pub fn retry_notice_line(retries: u32, p: Palette) -> (l: Line)
    ensures
        l@ == retry_line(retries, p),
{
    let noun: &'static str = if retries == 1 {
        " retry"
    } else {
        " retries"
    };
    let t: String = "↻ model request recovered after ".to_owned().concat(
        number(retries as u64).as_str(),
    ).concat(noun);
    Line::styled(t.as_str(), p.chrome())
}

/// The first lines of an error, each cut.
pub open spec fn error_body(ls: Seq<Seq<char>>, p: Palette) -> Seq<LineView> {
    ls.take(
        if ls.len() < 5 {
            ls.len() as int
        } else {
            5
        },
    ).map_values(|l: Seq<char>| styled_line("│ "@ + truncated(l, 120), p.chrome()))
}

/// The rows of an error: one where it is short, else a heading, its first five
/// lines, and an ellipsis where there are more.
pub open spec fn error_rows(e: Seq<char>, p: Palette) -> Seq<LineView> {
    if !e.contains('\n') && e.len() <= 120 {
        seq![line(seq![span("✗ "@, p.painted(Color::Red)), span(e, p.chrome())])]
    } else {
        seq![styled_line("✗ error"@, p.painted(Color::Red))] + error_body(lines(e), p) + (
        if lines(e).len() > 5 {
            seq![styled_line("│ …"@, p.chrome())]
        } else {
            Seq::empty()
        })
    }
}

/// The rows of an error.
pub fn error_block(e: &str, p: Palette) -> (out: Vec<Line>)
    ensures
        line_views(out@) == error_rows(e@, p),
{
    let chars: Vec<char> = chars_of(e);
    let mut out: Vec<Line> = Vec::new();
    if !holds(chars.as_slice(), '\n') && chars.len() <= 120 {
        let mut spans: Vec<Span> = Vec::new();
        spans.push(Span::styled("✗ ", p.semantic(Color::Red)));
        spans.push(Span::styled(e, p.chrome()));
        assert(span_views(spans@) =~= error_rows(e@, p)[0].spans);
        out.push(Line::new(spans));
        assert(line_views(out@) =~= error_rows(e@, p));
        return out;
    }
    out.push(Line::styled("✗ error", p.semantic(Color::Red)));
    let ls: Vec<Vec<char>> = lines_of(chars.as_slice());
    let ghost all = lines(e@);
    assert(all.len() == ls@.len());
    let n: usize = if ls.len() < 5 {
        ls.len()
    } else {
        5
    };
    let ghost head = line_views(out@);
    let ghost want = error_body(all, p);
    assert(head.len() == 1);
    let mut i: usize = 0;
    while i < n
        invariant
            i <= n,
            n <= ls@.len(),
            texts(ls@) == all,
            want == error_body(all, p),
            want.len() == n,
            line_views(out@) =~= head + want.take(i as int),
        decreases n - i,
    {
        let ghost before = line_views(out@);
        let cut: String = truncate(text_of(ls[i].as_slice()).as_str(), 120);
        let t: String = "│ ".to_owned().concat(cut.as_str());
        let l: Line = Line::styled(t.as_str(), p.chrome());
        let ghost lv = l@;
        assert(all[i as int] == ls@[i as int]@);
        assert(lv == want[i as int]);
        out.push(l);
        i += 1;
        assert(line_views(out@) =~= before.push(lv));
    }
    assert(want.take(i as int) =~= want);
    let ghost mid = line_views(out@);
    if ls.len() > 5 {
        let more: Line = Line::styled("│ …", p.chrome());
        let ghost mv = more@;
        out.push(more);
        assert(line_views(out@) =~= mid + seq![mv]);
    }
    assert(line_views(out@) =~= error_rows(e@, p));
    out
}

/// How long a turn took, a short one already written out.
pub open spec fn duration_text(nanos: u64, short: Seq<char>) -> Seq<char> {
    let secs = nanos / 1_000_000_000;
    if nanos < 60_000_000_000 {
        short + "s"@
    } else {
        decimal((secs / 60) as nat) + "m "@ + (if secs % 60 < 10 {
            "0"@
        } else {
            ""@
        }) + decimal((secs % 60) as nat) + "s"@
    }
}

/// How long a turn took: seconds to one decimal place below a minute, else
/// minutes and whole seconds.
pub open spec fn turn_duration(nanos: u64) -> Seq<char> {
    duration_text(nanos, seconds_text(nanos, 1))
}

/// How long a turn took, a short one already written out.
pub fn duration_text_of(nanos: u64, short: &str) -> (r: String)
    ensures
        r@ == duration_text(nanos, short@),
{
    if nanos < 60_000_000_000 {
        return short.to_owned().concat("s");
    }
    let secs: u64 = nanos / 1_000_000_000;
    let lead: &'static str = if secs % 60 < 10 {
        "0"
    } else {
        ""
    };
    number(secs / 60).concat("m ").concat(lead).concat(number(secs % 60).as_str()).concat("s")
}

/// How long a turn took.
pub fn turn_duration_label(nanos: u64) -> (r: String)
    ensures
        r@ == turn_duration(nanos),
{
    let short: String = seconds_of(nanos, 1);
    duration_text_of(nanos, short.as_str())
}

// ---- where the session is ---------------------------------------------------
/// The branch that the contents of a `HEAD` file name; a detached head has none.
pub open spec fn branch_in(head: Seq<char>) -> Option<Seq<char>> {
    behind(trim(head), "ref: refs/heads/"@)
}

/// The directory that a `.git` file points at.
pub open spec fn gitdir_in(text: Seq<char>) -> Option<Seq<char>> {
    match behind(trim(text), "gitdir:"@) {
        Some(t) => Some(trim(t)),
        None => None,
    }
}

/// The branch that the contents of a `HEAD` file name.
pub fn branch_of(head: &str) -> (r: Option<String>)
    ensures
        text_option(r) == branch_in(head@),
{
    let c: Vec<char> = chars_of(head);
    let t: Vec<char> = trim_of(c.as_slice());
    match behind_of(t.as_slice(), "ref: refs/heads/") {
        Some(b) => Some(text_of(b.as_slice())),
        None => None,
    }
}

/// The directory that a `.git` file points at.
pub fn gitdir_of(text: &str) -> (r: Option<String>)
    ensures
        text_option(r) == gitdir_in(text@),
{
    let c: Vec<char> = chars_of(text);
    let t: Vec<char> = trim_of(c.as_slice());
    match behind_of(t.as_slice(), "gitdir:") {
        Some(b) => {
            let b: Vec<char> = trim_of(b.as_slice());
            Some(text_of(b.as_slice()))
        },
        None => None,
    }
}

/// Where the session is: the directory's name, and the branch where there is one.
pub open spec fn location(cwd: Seq<char>, branch: Option<Seq<char>>) -> Seq<char> {
    match branch {
        Some(b) => place_name(cwd) + " ("@ + truncated(b, 24) + ")"@,
        None => place_name(cwd),
    }
}

/// Where the session is.
pub fn describe_location(cwd: &str, branch: &Option<String>) -> (r: String)
    ensures
        r@ == location(cwd@, text_option(*branch)),
{
    let leaf: String = place_name_of(cwd);
    match branch {
        Some(b) => leaf.concat(" (").concat(truncate(b.as_str(), 24).as_str()).concat(")"),
        None => leaf,
    }
}

/// The places that instruction files are read from.
pub open spec fn memory_places(home: Option<Seq<char>>, cwd: Seq<char>) -> Seq<Seq<char>> {
    let sc = path_join(path_join(cwd, ".sc"@), "AGENTS.md"@);
    let own = path_join(cwd, "AGENTS.md"@);
    match home {
        Some(h) => seq![path_join(path_join(h, ".sc"@), "AGENTS.md"@), sc, own],
        None => seq![sc, own],
    }
}

/// The places that instruction files are read from.
pub fn memory_candidates(home: &Option<String>, cwd: &str) -> (out: Vec<String>)
    ensures
        strings(out@) == memory_places(text_option(*home), cwd@),
{
    let mut out: Vec<String> = Vec::new();
    match home {
        Some(h) => {
            let dir: String = join_path(h.as_str(), ".sc");
            out.push(join_path(dir.as_str(), "AGENTS.md"));
        },
        None => {},
    }
    let dir: String = join_path(cwd, ".sc");
    out.push(join_path(dir.as_str(), "AGENTS.md"));
    out.push(join_path(cwd, "AGENTS.md"));
    assert(strings(out@) =~= memory_places(text_option(*home), cwd@));
    out
}

/// What a file at a place holds, where it could be read.
pub open spec fn read_texts(v: Seq<Option<String>>) -> Seq<Option<Seq<char>>> {
    v.map_values(|t: Option<String>| text_option(t))
}

/// The lines about those of the first `n` files that hold something.
pub open spec fn loaded(places: Seq<Seq<char>>, read: Seq<Option<Seq<char>>>, n: nat) -> Seq<Seq<char>>
    decreases n,
{
    if n == 0 {
        Seq::empty()
    } else {
        let before = loaded(places, read, (n - 1) as nat);
        if read[n - 1] is Some && trim(read[n - 1]->0).len() > 0 {
            before.push("  loaded  "@ + places[n - 1])
        } else {
            before
        }
    }
}

/// The lines about the instruction files: those that hold something, or that
/// none does.
pub open spec fn memory_report(places: Seq<Seq<char>>, read: Seq<Option<Seq<char>>>) -> Seq<Seq<char>> {
    let ls = loaded(places, read, places.len());
    if ls.len() == 0 {
        seq!["  no non-empty AGENTS.md files loaded"@]
    } else {
        ls
    }
}

/// The lines about the instruction files.
pub fn memory_status_lines(places: &Vec<String>, read: &Vec<Option<String>>) -> (out: Vec<String>)
    requires
        places@.len() == read@.len(),
    ensures
        strings(out@) == memory_report(strings(places@), read_texts(read@)),
{
    let ghost pv = strings(places@);
    let ghost rv = read_texts(read@);
    let mut out: Vec<String> = Vec::new();
    let mut i: usize = 0;
    assert(strings(out@) =~= Seq::<Seq<char>>::empty());
    while i < places.len()
        invariant
            i <= places@.len(),
            places@.len() == read@.len(),
            pv == strings(places@),
            rv == read_texts(read@),
            strings(out@) == loaded(pv, rv, i as nat),
        decreases places@.len() - i,
    {
        let ghost before = strings(out@);
        assert(pv[i as int] == places@[i as int]@);
        assert(rv[i as int] == text_option(read@[i as int]));
        match &read[i] {
            Some(t) => {
                let c: Vec<char> = chars_of(t.as_str());
                if trim_of(c.as_slice()).len() > 0 {
                    let l: String = "  loaded  ".to_owned().concat(places[i].as_str());
                    let ghost lv = l@;
                    out.push(l);
                    assert(strings(out@) =~= before.push(lv));
                }
            },
            None => {},
        }
        i += 1;
    }
    assert(strings(out@).len() == out@.len());
    if out.len() == 0 {
        out.push("  no non-empty AGENTS.md files loaded".to_owned());
        assert(strings(out@) =~= seq!["  no non-empty AGENTS.md files loaded"@]);
    }
    out
}

// ---- the clipboard ----------------------------------------------------------
/// The character for six bits.
pub open spec fn base64_char(n: int) -> char {
    if n < 26 {
        ('A' as int + n) as char
    } else if n < 52 {
        ('a' as int + (n - 26)) as char
    } else if n < 62 {
        ('0' as int + (n - 52)) as char
    } else if n == 62 {
        '+'
    } else {
        '/'
    }
}

/// Bytes in base64, padded, three bytes to four characters.
pub open spec fn base64_text(bytes: Seq<u8>) -> Seq<char>
    decreases bytes.len(),
{
    if bytes.len() == 0 {
        Seq::empty()
    } else {
        let a = bytes[0] as int;
        let b = if bytes.len() > 1 {
            bytes[1] as int
        } else {
            0
        };
        let c = if bytes.len() > 2 {
            bytes[2] as int
        } else {
            0
        };
        seq![
            base64_char(a / 4),
            base64_char(a % 4 * 16 + b / 16),
            if bytes.len() > 1 {
                base64_char(b % 16 * 4 + c / 64)
            } else {
                '='
            },
            if bytes.len() > 2 {
                base64_char(c % 64)
            } else {
                '='
            },
        ] + base64_text(
            bytes.skip(
                if bytes.len() < 3 {
                    bytes.len() as int
                } else {
                    3
                },
            ),
        )
    }
}

fn base64_char_of(n: u8) -> (c: char)
    requires
        n < 64,
    ensures
        c == base64_char(n as int),
{
    if n < 26 {
        (65u8 + n) as char
    } else if n < 52 {
        (97u8 + (n - 26)) as char
    } else if n < 62 {
        (48u8 + (n - 52)) as char
    } else if n == 62 {
        '+'
    } else {
        '/'
    }
}

/// Bytes in base64 with the standard alphabet, padded.
pub fn base64(bytes: &[u8]) -> (r: String)
    ensures
        r@ == base64_text(bytes@),
{
    let mut out: Vec<char> = Vec::new();
    let n: usize = bytes.len();
    let mut i: usize = 0;
    assert(bytes@.skip(0) =~= bytes@);
    assert(out@ + base64_text(bytes@) =~= base64_text(bytes@));
    while i < n
        invariant
            i <= n,
            n == bytes@.len(),
            out@ + base64_text(bytes@.skip(i as int)) == base64_text(bytes@),
        decreases n - i,
    {
        let ghost here = bytes@.skip(i as int);
        let ghost before = out@;
        let left: usize = n - i;
        let a: u8 = bytes[i];
        let b: u8 = if left > 1 {
            bytes[i + 1]
        } else {
            0
        };
        let c: u8 = if left > 2 {
            bytes[i + 2]
        } else {
            0
        };
        assert(here[0] == a);
        assert(left > 1 ==> here[1] == b);
        assert(left > 2 ==> here[2] == c);
        let c1: char = base64_char_of(a / 4);
        let c2: char = base64_char_of(a % 4 * 16 + b / 16);
        let c3: char = if left > 1 {
            base64_char_of(b % 16 * 4 + c / 64)
        } else {
            '='
        };
        let c4: char = if left > 2 {
            base64_char_of(c % 64)
        } else {
            '='
        };
        out.push(c1);
        out.push(c2);
        out.push(c3);
        out.push(c4);
        let step: usize = if left < 3 {
            left
        } else {
            3
        };
        assert(here.skip(step as int) =~= bytes@.skip(i + step));
        let ghost rest = base64_text(bytes@.skip(i + step));
        assert(base64_text(here) == seq![c1, c2, c3, c4] + rest);
        assert(before + (seq![c1, c2, c3, c4] + rest) =~= out@ + rest);
        i += step;
    }
    assert(bytes@.skip(i as int) =~= Seq::<u8>::empty());
    assert(out@ =~= base64_text(bytes@));
    text_of(out.as_slice())
}

/// The six bits of a character.
pub open spec fn base64_value(c: char) -> int {
    if 'A' <= c && c <= 'Z' {
        c as int - 'A' as int
    } else if 'a' <= c && c <= 'z' {
        c as int - 'a' as int + 26
    } else if '0' <= c && c <= '9' {
        c as int - '0' as int + 52
    } else if c == '+' {
        62
    } else {
        63
    }
}

/// The bytes that a text in base64 stands for.
pub open spec fn base64_bytes(t: Seq<char>) -> Seq<u8>
    decreases t.len(),
{
    if t.len() < 4 {
        Seq::empty()
    } else {
        let p = base64_value(t[0]);
        let q = base64_value(t[1]);
        let r = base64_value(t[2]);
        let s = base64_value(t[3]);
        seq![(p * 4 + q / 16) as u8] + (if t[2] == '=' {
            Seq::empty()
        } else {
            seq![(q % 16 * 16 + r / 4) as u8]
        }) + (if t[3] == '=' {
            Seq::empty()
        } else {
            seq![(r % 4 * 64 + s) as u8]
        }) + base64_bytes(t.skip(4))
    }
}

proof fn lemma_base64_char(n: int)
    requires
        0 <= n < 64,
    ensures
        base64_value(base64_char(n)) == n,
        base64_char(n) != '=',
{
}

/// What was written in base64 reads back as the same bytes.
pub proof fn base64_reads_back(bytes: Seq<u8>)
    ensures
        base64_bytes(base64_text(bytes)) == bytes,
    decreases bytes.len(),
{
    if bytes.len() == 0 {
        assert(base64_bytes(base64_text(bytes)) =~= bytes);
    } else {
        let n: int = if bytes.len() < 3 {
            bytes.len() as int
        } else {
            3
        };
        let a = bytes[0] as int;
        let b: int = if bytes.len() > 1 {
            bytes[1] as int
        } else {
            0
        };
        let c: int = if bytes.len() > 2 {
            bytes[2] as int
        } else {
            0
        };
        let rest = bytes.skip(n);
        base64_reads_back(rest);
        let t = base64_text(bytes);
        assert(t.skip(4) =~= base64_text(rest));
        lemma_base64_char(a / 4);
        lemma_base64_char(a % 4 * 16 + b / 16);
        lemma_base64_char(b % 16 * 4 + c / 64);
        lemma_base64_char(c % 64);
        assert(base64_bytes(t) =~= bytes);
    }
}

/// A text with every escape character doubled.
pub open spec fn escapes_doubled(s: Seq<char>) -> Seq<char>
    decreases s.len(),
{
    if s.len() == 0 {
        s
    } else if s.last() == '\u{1b}' {
        escapes_doubled(s.drop_last()).push('\u{1b}').push('\u{1b}')
    } else {
        escapes_doubled(s.drop_last()).push(s.last())
    }
}

/// The sequence that puts a text on the clipboard of the terminal's user.
pub open spec fn clipboard(text: Seq<u8>, tmux: bool) -> Seq<char> {
    let osc = seq!['\u{1b}'] + "]52;c;"@ + base64_text(text) + seq!['\u{7}'];
    if tmux {
        seq!['\u{1b}'] + "Ptmux;"@ + escapes_doubled(osc) + seq!['\u{1b}', '\\']
    } else {
        osc
    }
}

fn double_escapes(s: &[char]) -> (out: Vec<char>)
    ensures
        out@ == escapes_doubled(s@),
{
    let mut out: Vec<char> = Vec::new();
    let mut i: usize = 0;
    assert(s@.take(0) =~= Seq::<char>::empty());
    assert(out@ =~= escapes_doubled(s@.take(0)));
    while i < s.len()
        invariant
            i <= s@.len(),
            out@ == escapes_doubled(s@.take(i as int)),
        decreases s@.len() - i,
    {
        let c: char = s[i];
        assert(s@.take(i + 1).drop_last() =~= s@.take(i as int));
        out.push(c);
        if c == '\u{1b}' {
            out.push(c);
        }
        i += 1;
    }
    assert(s@.take(i as int) =~= s@);
    out
}

/// The sequence that puts a text on the clipboard of the terminal's user. Inside
/// a terminal multiplexer it is wrapped so that it passes through.
pub fn clipboard_sequence(text: &str, tmux: bool) -> (r: String)
    ensures
        r@ == clipboard(text.spec_bytes(), tmux),
{
    let coded: String = base64(text.as_bytes());
    let osc: String = char_text('\u{1b}').concat("]52;c;").concat(coded.as_str()).concat(
        char_text('\u{7}').as_str(),
    );
    if tmux {
        let chars: Vec<char> = chars_of(osc.as_str());
        let doubled: String = text_of(double_escapes(chars.as_slice()).as_slice());
        let mut end: Vec<char> = Vec::new();
        end.push('\u{1b}');
        end.push('\\');
        assert(end@ =~= seq!['\u{1b}', '\\']);
        char_text('\u{1b}').concat("Ptmux;").concat(doubled.as_str()).concat(
            text_of(end.as_slice()).as_str(),
        )
    } else {
        osc
    }
}

} // verus!
