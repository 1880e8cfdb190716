//! What is told of calls, results, errors, times and places, and what the history
//! keeps of the prompts.
use crate::input::{
    alike,
    browsed,
    entries,
    goes_on,
    last_white_before,
    loop_text,
    next_mode,
    quits,
    remembered,
    truncated,
    without_last_word,
    EscAction,
};
use crate::markdown::{first_word, word_prefix};
use crate::markup::without;
use crate::paths::path_join;
use crate::report::{
    base64_text,
    branch_in,
    call_in,
    call_summary,
    clipboard,
    detail_rows,
    duration_text,
    edit_in,
    error_rows,
    gitdir_in,
    json_at,
    loaded,
    location,
    memory_places,
    memory_report,
    prompt_line,
    retry_line,
    rule_for,
    shown_name,
    start_line,
    summary_row,
    JsonView,
    ResultView,
};
use crate::styled::{raw, Color, Paint, SpanView};
use crate::text::{decimal, lines, split, stands_at, trim, trim_end, trim_start, white};
use crate::theme::Palette;
use crate::view::{AgentMode, ViewModel};
use crate::words::blank;
use vstd::prelude::*;
use vstd::string::*;

verus! {

// ---- calls ------------------------------------------------------------------
/// A text of up to so many characters is told whole, a longer one by its first
/// characters and three dots.
pub proof fn long_texts_are_cut(s: Seq<char>, n: nat)
    ensures
        s.len() <= n ==> truncated(s, n) == s,
        s.len() > n ==> truncated(s, n) == s.take(n as int) + seq!['.', '.', '.'],
{
    reveal_strlit("...");
    assert("..."@ =~= seq!['.', '.', '.']);
}

/// A call is told by its command, else by its file, else by its pattern, else by
/// its message, else by its arguments as they stand.
pub proof fn what_is_told_of_a_call(args: Seq<char>, t: Seq<char>)
    ensures
        json_at(args, "command"@) == JsonView::Text(t) ==> {
            &&& t.len() <= 80 ==> call_summary(call_in(args), args) == t
            &&& t.len() > 80 ==> call_summary(call_in(args), args) == t.take(80) + "..."@
        },
        !(json_at(args, "command"@) is Text) ==> {
            &&& json_at(args, "file_path"@) == JsonView::Text(t) ==> call_summary(
                call_in(args),
                args,
            ) == t
            &&& json_at(args, "file_path"@) is Absent && json_at(args, "path"@) == JsonView::Text(t)
                ==> call_summary(call_in(args), args) == t
            &&& json_at(args, "file_path"@) is Absent && !(json_at(args, "path"@) is Text) ==> {
                &&& json_at(args, "pattern"@) == JsonView::Text(t) && t.len() <= 60 ==> call_summary(
                    call_in(args),
                    args,
                ) == "pattern="@ + t
                &&& json_at(args, "pattern"@) == JsonView::Text(t) && t.len() > 60 ==> call_summary(
                    call_in(args),
                    args,
                ) == "pattern="@ + (t.take(60) + "..."@)
                &&& !(json_at(args, "pattern"@) is Text) && json_at(args, "msg"@)
                    == JsonView::Text(t) ==> call_summary(call_in(args), args) == t
                &&& !(json_at(args, "pattern"@) is Text) && !(json_at(args, "msg"@) is Text)
                    && args.len() <= 80 ==> call_summary(call_in(args), args) == args
            }
        },
{
}

/// An edit is a call with a file, what was there and what comes instead, in texts.
pub proof fn what_an_edit_is(args: Seq<char>, path: Seq<char>, o: Seq<char>, n: Seq<char>)
    ensures
        json_at(args, "file_path"@) == JsonView::Text(path) && json_at(args, "old_string"@)
            == JsonView::Text(o) && json_at(args, "new_string"@) == JsonView::Text(n) ==> edit_in(
            call_in(args),
        ) == Some((path, o, n)),
        !(json_at(args, "file_path"@) is Text) || !(json_at(args, "old_string"@) is Text) || !(
        json_at(args, "new_string"@) is Text) ==> edit_in(call_in(args)) is None,
{
}

proof fn lemma_prefix(w: Seq<char>, rest: Seq<char>)
    requires
        forall|i: int| 0 <= i < w.len() ==> !white(#[trigger] w[i]),
        rest.len() == 0 || white(rest[0]),
    ensures
        word_prefix(w + rest) == w,
    decreases w.len(),
{
    if w.len() == 0 {
        assert(w + rest =~= rest);
        assert(w =~= Seq::<char>::empty());
    } else {
        assert(!white(w[0]));
        assert((w + rest)[0] == w[0]);
        assert((w + rest).skip(1) =~= w.skip(1) + rest);
        assert forall|i: int| 0 <= i < w.skip(1).len() implies !white(#[trigger] w.skip(1)[i]) by {
            assert(w.skip(1)[i] == w[i + 1]);
        }
        lemma_prefix(w.skip(1), rest);
        assert(seq![w[0]] + w.skip(1) =~= w);
    }
}

proof fn lemma_first_word(a: Seq<char>, w: Seq<char>, rest: Seq<char>)
    requires
        blank(a),
        w.len() > 0,
        forall|i: int| 0 <= i < w.len() ==> !white(#[trigger] w[i]),
        rest.len() == 0 || white(rest[0]),
    ensures
        first_word(a + w + rest) == w,
{
    lemma_trimmed_start(a, w + rest);
    assert(a + w + rest =~= a + (w + rest));
    assert(!white(w[0]));
    lemma_prefix(w, rest);
}

proof fn lemma_trimmed_start(a: Seq<char>, s: Seq<char>)
    requires
        blank(a),
        s.len() == 0 || !white(s[0]),
    ensures
        trim_start(a + s) == s,
    decreases a.len(),
{
    if a.len() == 0 {
        assert(a + s =~= s);
    } else {
        assert(white(a[0]));
        assert((a + s).skip(1) =~= a.skip(1) + s);
        assert forall|i: int| 0 <= i < a.skip(1).len() implies white(#[trigger] a.skip(1)[i]) by {
            assert(a.skip(1)[i] == a[i + 1]);
        }
        lemma_trimmed_start(a.skip(1), s);
    }
}

/// The rule that is offered for a shell command allows its first word with any
/// arguments, and for any other tool the tool.
pub proof fn what_rule_is_offered(
    tool: Seq<char>,
    a: Seq<char>,
    w: Seq<char>,
    rest: Seq<char>,
    command: Option<Seq<char>>,
)
    requires
        blank(a),
        w.len() > 0,
        forall|i: int| 0 <= i < w.len() ==> !white(#[trigger] w[i]),
        rest.len() == 0 || white(rest[0]),
    ensures
        rule_for("Bash"@, Some(a + w + rest)) == "Bash("@ + w + ":*)"@,
        rule_for("Bash"@, None) == "Bash"@,
        rule_for("Bash"@, Some(a)) == "Bash"@,
        tool != "Bash"@ ==> rule_for(tool, command) == tool,
{
    lemma_first_word(a, w, rest);
    lemma_trimmed_start(a, Seq::empty());
    assert(a + Seq::<char>::empty() =~= a);
}

/// The row of a starting tool: an arrow, its name and what is told of the call.
pub proof fn how_a_starting_tool_is_told(name: Seq<char>, summary: Seq<char>, p: Palette)
    ensures
        start_line(name, summary, p).spans == seq![
            (SpanView { content: "▸ "@, style: p.chrome() }),
            (SpanView { content: name, style: p.body() }),
            (SpanView { content: "  "@ + summary, style: p.chrome() }),
        ],
{
}

// ---- results ----------------------------------------------------------------
/// A tool goes by its name, and one without a telling name by a general one.
pub proof fn what_a_tool_is_called(tool: Seq<char>)
    ensures
        blank(tool) ==> shown_name(tool) == "tool call"@,
        shown_name("tool"@) == "tool call"@,
        shown_name("Tool"@) == "tool call"@,
        tool.len() > 4 && !white(tool[0]) && !white(tool.last()) ==> shown_name(tool) == tool,
{
    reveal_strlit("tool");
    reveal_strlit("Tool");
    if blank(tool) {
        crate::words::nothing_is_left_of_white_space(tool);
    }
    let a = "Tool"@;
    let b = "tool"@;
    assert forall|i: int| 0 <= i < a.len() implies crate::text::ascii_lower(#[trigger] a[i])
        == crate::text::ascii_lower(b[i]) by {
        if i == 0 {
        } else if i == 1 {
        } else if i == 2 {
        } else {
        }
    }
    if tool.len() > 4 && !white(tool[0]) && !white(tool.last()) {
        assert(trim(tool) == tool);
    }
}

/// The row of a finished call: an arrow that says whether it is open, the name,
/// the seconds, and how it ended where it did not succeed.
pub proof fn how_a_result_is_summed_up(
    tool: Seq<char>,
    r: ResultView,
    seconds: Seq<char>,
    expanded: bool,
    p: Palette,
)
    ensures
        ({
            let s = summary_row(tool, r, seconds, expanded, p).spans;
            &&& s.len() >= 3
            &&& expanded ==> s[0].content == "▾ "@
            &&& !expanded ==> s[0].content == "▸ "@
            &&& s[1].content == shown_name(tool)
            &&& s[2].content == " · "@ + seconds + "s"@
            &&& r is Success ==> s.len() == 3
            &&& r is Failure ==> s.len() == 4 && s[3].content == " · failed"@
            &&& r is Denied ==> s.len() == 4 && s[3].content == " · denied"@
            &&& r is Interrupted ==> s.len() == 4 && s[3].content == " · interrupted"@
        }),
{
}

/// What a result shows when it is opened: how it ended, every line of what it
/// said behind a bar, and that something is missing where it is.
pub proof fn what_a_result_shows(r: ResultView, p: Palette, i: int)
    ensures
        ({
            let rows = detail_rows(r, p);
            let (head, body, cut) = match r {
                ResultView::Success { content, truncated } => ("  ✓ output"@, content, truncated),
                ResultView::Failure { message } => ("  ✗ error"@, message, false),
                ResultView::Denied { reason } => ("  ⊘ denied"@, reason, false),
                ResultView::Interrupted => ("  – interrupted"@, Seq::empty(), false),
            };
            let n = if body.len() == 0 {
                0nat
            } else {
                split(body, '\n').len()
            };
            &&& rows.len() == 1 + n + (if cut {
                1nat
            } else {
                0nat
            })
            &&& rows[0].spans == seq![raw(head)]
            &&& 0 <= i < n ==> rows[1 + i].spans == seq![raw("  │ "@ + split(body, '\n')[i])]
            &&& cut ==> rows.last().spans == seq![raw("  │ [output truncated]"@)]
            &&& !p.no_color ==> {
                &&& r is Success ==> rows[0].style.fg == Paint::Solid(Color::Green)
                &&& r is Failure ==> rows[0].style.fg == Paint::Solid(Color::Red)
                &&& r is Denied ==> rows[0].style.fg == Paint::Solid(Color::Yellow)
            }
        }),
{
}

/// A prompt stands in the transcript between a sign and two spaces.
pub proof fn how_a_prompt_is_told(text: Seq<char>, p: Palette)
    ensures
        prompt_line(text, p).spans == seq![raw("  > "@ + text + "  "@)],
{
}

/// Retries are counted, in the singular where there was one.
pub proof fn how_retries_are_told(n: u32, p: Palette)
    ensures
        n == 1 ==> retry_line(n, p).spans == seq![
            raw("↻ model request recovered after "@ + decimal(1) + " retry"@),
        ],
        n != 1 ==> retry_line(n, p).spans == seq![
            raw("↻ model request recovered after "@ + decimal(n as nat) + " retries"@),
        ],
{
}

/// A short error is one row; a long one, or one of several lines, is a heading and
/// its first five lines, with a mark where there are more.
pub proof fn how_an_error_is_told(e: Seq<char>, p: Palette, i: int)
    ensures
        ({
            let rows = error_rows(e, p);
            let n = lines(e).len();
            let most = if n < 5 {
                n
            } else {
                5
            };
            &&& without(e, '\n') && e.len() <= 120 ==> rows.len() == 1 && rows[0].spans.len() == 2
                && rows[0].spans[0].content == "✗ "@ && rows[0].spans[1].content == e
            &&& !without(e, '\n') || e.len() > 120 ==> {
                &&& rows.len() == 1 + most + (if n > 5 {
                    1nat
                } else {
                    0nat
                })
                &&& rows[0].spans == seq![raw("✗ error"@)]
                &&& 0 <= i < most && lines(e)[i].len() <= 120 ==> rows[1 + i].spans == seq![
                    raw("│ "@ + lines(e)[i]),
                ]
                &&& 0 <= i < most && lines(e)[i].len() > 120 ==> rows[1 + i].spans == seq![
                    raw("│ "@ + (lines(e)[i].take(120) + "..."@)),
                ]
                &&& n > 5 ==> rows[6].spans == seq![raw("│ …"@)]
            }
        }),
{
    assert(e.contains('\n') <==> !without(e, '\n')) by {
        if e.contains('\n') {
            let k = choose|k: int| 0 <= k < e.len() && e[k] == '\n';
            assert(e[k] == '\n');
        }
        if !without(e, '\n') {
            let k = choose|k: int| 0 <= k < e.len() && #[trigger] e[k] == '\n';
            assert(e.contains(e[k]));
        }
    }
}

// ---- times and places -------------------------------------------------------
/// A turn of a minute or more is told in minutes and two digits of seconds, a
/// shorter one in the seconds that were given.
pub proof fn how_a_duration_is_told(m: nat, s: nat, rest: nat, short: Seq<char>)
    requires
        s < 60,
        rest < 1_000_000_000,
        (m * 60 + s) * 1_000_000_000 + rest <= u64::MAX,
    ensures
        ({
            let t = duration_text(((m * 60 + s) * 1_000_000_000 + rest) as u64, short);
            &&& m == 0 ==> t == short + "s"@
            &&& m > 0 && s < 10 ==> t == decimal(m) + "m "@ + "0"@ + decimal(s) + "s"@
            &&& m > 0 && s >= 10 ==> t == decimal(m) + "m "@ + decimal(s) + "s"@
        }),
{
    reveal_strlit("");
    let n = (m * 60 + s) * 1_000_000_000 + rest;
    assert(n / 1_000_000_000 == m * 60 + s) by (nonlinear_arith)
        requires
            n == (m * 60 + s) * 1_000_000_000 + rest,
            rest < 1_000_000_000,
    ;
    assert((m * 60 + s) / 60 == m && (m * 60 + s) % 60 == s) by (nonlinear_arith)
        requires
            s < 60,
    ;
    assert(m == 0 <==> n < 60_000_000_000) by (nonlinear_arith)
        requires
            n == (m * 60 + s) * 1_000_000_000 + rest,
            rest < 1_000_000_000,
            s < 60,
    ;
    let d = decimal(m) + "m "@;
    assert(d + ""@ =~= d);
}

proof fn lemma_read_behind(lead: Seq<char>, s: Seq<char>)
    ensures
        crate::input::behind(lead + s, lead) == Some(s),
{
    assert((lead + s).subrange(0, lead.len() as int) =~= lead);
    assert((lead + s).skip(lead.len() as int) =~= s);
}

proof fn lemma_tight_trim(s: Seq<char>, b: Seq<char>)
    requires
        s.len() > 0,
        !white(s[0]),
        !white(s.last()),
        blank(b),
    ensures
        trim(s + b) == s,
{
    crate::words::trimming_takes_the_white_space(Seq::empty(), s, b);
    assert(Seq::<char>::empty() + s + b =~= s + b);
}

/// A head that names a branch gives it, and one that names anything else gives
/// none; a file that points to the repository gives the place it points to.
pub proof fn where_the_repository_is(b: Seq<char>, end: Seq<char>, other: Seq<char>)
    requires
        b.len() > 0,
        !white(b[0]),
        !white(b.last()),
        blank(end),
        other.len() > 0,
        other[0] != 'r' && other[0] != 'g' && !white(other[0]),
    ensures
        branch_in("ref: refs/heads/"@ + b + end) == Some(b),
        gitdir_in("gitdir:"@ + seq![' '] + b + end) == Some(b),
        branch_in(other) is None,
        gitdir_in(other) is None,
{
    reveal_strlit("ref: refs/heads/");
    reveal_strlit("gitdir:");
    let r = "ref: refs/heads/"@;
    let g = "gitdir:"@;
    assert((r + b)[0] == 'r');
    assert((r + b).last() == b.last());
    lemma_tight_trim(r + b, end);
    lemma_read_behind(r, b);
    let sb = seq![' '] + b;
    assert((g + sb)[0] == 'g');
    assert((g + sb).last() == b.last());
    lemma_tight_trim(g + sb, end);
    assert(g + sb + end =~= g + seq![' '] + b + end);
    lemma_read_behind(g, sb);
    crate::words::trimming_takes_the_white_space(seq![' '], b, Seq::empty());
    assert(sb + Seq::<char>::empty() =~= sb);
    lemma_trim_keeps_first(other);
    if stands_at(trim(other), r, 0) {
        assert(trim(other).subrange(0, r.len() as int)[0] == 'r');
    }
    if stands_at(trim(other), g, 0) {
        assert(trim(other).subrange(0, g.len() as int)[0] == 'g');
    }
}

proof fn lemma_trim_keeps_first(s: Seq<char>)
    requires
        s.len() > 0,
        !white(s[0]),
    ensures
        trim(s).len() > 0,
        trim(s)[0] == s[0],
{
    lemma_trim_end_first(s);
}

proof fn lemma_trim_end_first(s: Seq<char>)
    requires
        s.len() > 0,
        !white(s[0]),
    ensures
        trim_end(s).len() > 0,
        trim_end(s)[0] == s[0],
    decreases s.len(),
{
    if white(s.last()) {
        lemma_trim_end_first(s.drop_last());
    }
}

/// The place is told by its name, with the branch in brackets where there is one.
pub proof fn how_a_place_is_told(cwd: Seq<char>, b: Seq<char>)
    ensures
        location(cwd, None) == crate::paths::place_name(cwd),
        b.len() <= 24 ==> location(cwd, Some(b)) == crate::paths::place_name(cwd) + " ("@ + b + ")"@,
        b.len() > 24 ==> location(cwd, Some(b)) == crate::paths::place_name(cwd) + " ("@ + (b.take(24)
            + "..."@) + ")"@,
{
}

/// The instructions are looked for in the home, in the project's own directory
/// and in the project, in this order.
pub proof fn where_instructions_are_looked_for(home: Seq<char>, cwd: Seq<char>)
    ensures
        memory_places(Some(home), cwd) == seq![
            path_join(path_join(home, ".sc"@), "AGENTS.md"@),
            path_join(path_join(cwd, ".sc"@), "AGENTS.md"@),
            path_join(cwd, "AGENTS.md"@),
        ],
        memory_places(None, cwd) == memory_places(Some(home), cwd).skip(1),
{
    assert(memory_places(None, cwd) =~= memory_places(Some(home), cwd).skip(1));
}

/// Every file that holds something is listed, in order, and no other; where there
/// is none, it says so.
pub proof fn which_instructions_are_listed(
    places: Seq<Seq<char>>,
    read: Seq<Option<Seq<char>>>,
    n: nat,
)
    requires
        n < places.len(),
        places.len() == read.len(),
    ensures
        read[n as int] is Some && trim(read[n as int]->0).len() > 0 ==> loaded(places, read, n + 1)
            == loaded(places, read, n).push("  loaded  "@ + places[n as int]),
        read[n as int] is None || trim(read[n as int]->0).len() == 0 ==> loaded(places, read, n + 1)
            == loaded(places, read, n),
        loaded(places, read, 0).len() == 0,
        loaded(places, read, places.len()).len() == 0 ==> memory_report(places, read) == seq![
            "  no non-empty AGENTS.md files loaded"@,
        ],
        loaded(places, read, places.len()).len() > 0 ==> memory_report(places, read) == loaded(
            places,
            read,
            places.len(),
        ),
{
}

// ---- the clipboard ----------------------------------------------------------
/// The letters that groups of six bits are written in.
pub open spec fn sixty_four() -> Seq<char> {
    "ABCDEFGHIJKLMNOPQRSTUVWXYZabcdefghijklmnopqrstuvwxyz0123456789+/"@
}

proof fn lemma_letter(n: int)
    requires
        0 <= n < 64,
    ensures
        crate::report::base64_char(n) == sixty_four()[n],
{
    reveal_strlit("ABCDEFGHIJKLMNOPQRSTUVWXYZabcdefghijklmnopqrstuvwxyz0123456789+/");
    lemma_letters_low(n);
    lemma_letters_high(n);
}

proof fn lemma_letters_low(n: int)
    requires
        0 <= n < 64,
    ensures
        n < 32 ==> crate::report::base64_char(n) == sixty_four()[n],
{
    reveal_strlit("ABCDEFGHIJKLMNOPQRSTUVWXYZabcdefghijklmnopqrstuvwxyz0123456789+/");
    if n < 8 {
        if n == 0 {} else if n == 1 {} else if n == 2 {} else if n == 3 {} else if n == 4 {} else if n == 5 {} else if n == 6 {} else {}
    } else if n < 16 {
        if n == 8 {} else if n == 9 {} else if n == 10 {} else if n == 11 {} else if n == 12 {} else if n == 13 {} else if n == 14 {} else {}
    } else if n < 24 {
        if n == 16 {} else if n == 17 {} else if n == 18 {} else if n == 19 {} else if n == 20 {} else if n == 21 {} else if n == 22 {} else {}
    } else if n < 32 {
        if n == 24 {} else if n == 25 {} else if n == 26 {} else if n == 27 {} else if n == 28 {} else if n == 29 {} else if n == 30 {} else {}
    }
}

proof fn lemma_letters_high(n: int)
    requires
        0 <= n < 64,
    ensures
        n >= 32 ==> crate::report::base64_char(n) == sixty_four()[n],
{
    reveal_strlit("ABCDEFGHIJKLMNOPQRSTUVWXYZabcdefghijklmnopqrstuvwxyz0123456789+/");
    if n >= 56 {
        if n == 56 {} else if n == 57 {} else if n == 58 {} else if n == 59 {} else if n == 60 {} else if n == 61 {} else if n == 62 {} else {}
    } else if n >= 48 {
        if n == 48 {} else if n == 49 {} else if n == 50 {} else if n == 51 {} else if n == 52 {} else if n == 53 {} else if n == 54 {} else {}
    } else if n >= 40 {
        if n == 40 {} else if n == 41 {} else if n == 42 {} else if n == 43 {} else if n == 44 {} else if n == 45 {} else if n == 46 {} else {}
    } else if n >= 32 {
        if n == 32 {} else if n == 33 {} else if n == 34 {} else if n == 35 {} else if n == 36 {} else if n == 37 {} else if n == 38 {} else {}
    }
}

/// Three bytes are written as four letters, six bits each from the first byte on;
/// what is missing at the end is written as equals signs.
pub proof fn three_bytes_are_four_letters(a: u8, b: u8, c: u8, rest: Seq<u8>)
    ensures
        base64_text(seq![a, b, c] + rest) == seq![
            sixty_four()[a as int / 4],
            sixty_four()[a as int % 4 * 16 + b as int / 16],
            sixty_four()[b as int % 16 * 4 + c as int / 64],
            sixty_four()[c as int % 64],
        ] + base64_text(rest),
        base64_text(seq![a, b]) == seq![
            sixty_four()[a as int / 4],
            sixty_four()[a as int % 4 * 16 + b as int / 16],
            sixty_four()[b as int % 16 * 4],
            '=',
        ],
        base64_text(seq![a]) == seq![
            sixty_four()[a as int / 4],
            sixty_four()[a as int % 4 * 16],
            '=',
            '=',
        ],
        base64_text(Seq::empty()).len() == 0,
{
    reveal_with_fuel(base64_text, 2);
    let (x, y, z) = (a as int, b as int, c as int);
    lemma_letter(x / 4);
    lemma_letter(x % 4 * 16 + y / 16);
    lemma_letter(y % 16 * 4 + z / 64);
    lemma_letter(z % 64);
    lemma_letter(y % 16 * 4);
    lemma_letter(x % 4 * 16);
    assert((seq![a, b, c] + rest).skip(3) =~= rest);
    assert(seq![a, b].skip(2) =~= Seq::<u8>::empty());
    assert(seq![a].skip(1) =~= Seq::<u8>::empty());
    assert(base64_text(seq![a, b]) =~= seq![
        sixty_four()[x / 4],
        sixty_four()[x % 4 * 16 + y / 16],
        sixty_four()[y % 16 * 4],
        '=',
    ]);
    assert(base64_text(seq![a]) =~= seq![sixty_four()[x / 4], sixty_four()[x % 4 * 16], '=', '=']);
}

/// What is copied goes to the terminal between an opening sequence and a bell,
/// and within a multiplexer in its own brackets with every escape doubled.
pub proof fn how_the_clipboard_is_reached(text: Seq<u8>)
    ensures
        clipboard(text, false) == seq!['\u{1b}'] + "]52;c;"@ + base64_text(text) + seq!['\u{7}'],
        ({
            let c = clipboard(text, true);
            let n = "\u{1b}Ptmux;\u{1b}\u{1b}]52;c;"@.len();
            &&& c.len() == n + base64_text(text).len() + 3
            &&& c.take(n as int) == "\u{1b}Ptmux;\u{1b}\u{1b}]52;c;"@
            &&& c.subrange(n as int, n as int + base64_text(text).len()) == base64_text(text)
            &&& c.skip(n as int + base64_text(text).len()) == seq!['\u{7}', '\u{1b}', '\\']
        }),
{
    reveal_strlit("]52;c;");
    reveal_strlit("Ptmux;");
    reveal_strlit("\u{1b}Ptmux;\u{1b}\u{1b}]52;c;");
    let body = base64_text(text);
    lemma_no_escapes(text);
    let lead = seq!['\u{1b}'] + "]52;c;"@;
    let osc = lead + body + seq!['\u{7}'];
    let tail = "]52;c;"@ + body + seq!['\u{7}'];
    assert(osc =~= seq!['\u{1b}'] + tail);
    assert forall|i: int| 0 <= i < tail.len() implies #[trigger] tail[i] != '\u{1b}' by {
        if i < 6 {
            assert(tail[i] == "]52;c;"@[i]);
        } else if i < 6 + body.len() {
            assert(tail[i] == body[i - 6]);
        }
    }
    lemma_one_escape(tail);
    let c = clipboard(text, true);
    let n = "\u{1b}Ptmux;\u{1b}\u{1b}]52;c;"@.len();
    assert(c =~= seq!['\u{1b}'] + "Ptmux;"@ + (seq!['\u{1b}', '\u{1b}'] + tail) + seq![
        '\u{1b}',
        '\\',
    ]);
    assert(c.take(n as int) =~= "\u{1b}Ptmux;\u{1b}\u{1b}]52;c;"@);
    assert(c.subrange(n as int, n + body.len() as int) =~= body);
    assert(c.skip(n + body.len() as int) =~= seq!['\u{7}', '\u{1b}', '\\']);
}

proof fn lemma_no_escapes(b: Seq<u8>)
    ensures
        forall|i: int| 0 <= i < base64_text(b).len() ==> #[trigger] base64_text(b)[i] != '\u{1b}',
    decreases b.len(),
{
    if b.len() > 0 {
        let k: int = if b.len() < 3 {
            b.len() as int
        } else {
            3
        };
        let rest = base64_text(b.skip(k));
        lemma_no_escapes(b.skip(k));
        let x = b[0] as int;
        let y = if b.len() > 1 {
            b[1] as int
        } else {
            0
        };
        let z = if b.len() > 2 {
            b[2] as int
        } else {
            0
        };
        lemma_no_escape(x / 4);
        lemma_no_escape(x % 4 * 16 + y / 16);
        lemma_no_escape(y % 16 * 4 + z / 64);
        lemma_no_escape(z % 64);
        let t = base64_text(b);
        assert forall|i: int| 0 <= i < t.len() implies #[trigger] t[i] != '\u{1b}' by {
            if i >= 4 {
                assert(t[i] == rest[i - 4]);
            }
        }
    }
}

proof fn lemma_no_escape(n: int)
    requires
        0 <= n < 64,
    ensures
        crate::report::base64_char(n) != '\u{1b}',
{
}

proof fn lemma_one_escape(tail: Seq<char>)
    requires
        forall|i: int| 0 <= i < tail.len() ==> #[trigger] tail[i] != '\u{1b}',
    ensures
        crate::report::escapes_doubled(seq!['\u{1b}'] + tail) == seq!['\u{1b}', '\u{1b}'] + tail,
    decreases tail.len(),
{
    let s = seq!['\u{1b}'] + tail;
    if tail.len() == 0 {
        assert(s.drop_last() =~= Seq::<char>::empty());
        assert(crate::report::escapes_doubled(s.drop_last()) =~= Seq::<char>::empty());
        assert(crate::report::escapes_doubled(s) =~= seq!['\u{1b}', '\u{1b}'] + tail);
    } else {
        let t = tail.drop_last();
        assert forall|i: int| 0 <= i < t.len() implies #[trigger] t[i] != '\u{1b}' by {
            assert(t[i] == tail[i]);
        }
        lemma_one_escape(t);
        assert(s.drop_last() =~= seq!['\u{1b}'] + t);
        assert(s.last() == tail[tail.len() - 1]);
        assert(crate::report::escapes_doubled(s) =~= seq!['\u{1b}', '\u{1b}'] + tail);
    }
}

// ---- prompts ----------------------------------------------------------------
/// Two words end the session, with any white space round them, and no others do.
pub proof fn what_ends_the_session(a: Seq<char>, b: Seq<char>, t: Seq<char>)
    requires
        blank(a),
        blank(b),
        t.len() > 0,
        !white(t[0]),
        !white(t.last()),
    ensures
        quits(a + t + b) <==> (t == "exit"@ || t == "quit"@),
{
    crate::words::trimming_takes_the_white_space(a, t, b);
}

/// A held prompt goes on for twenty milliseconds where it can be the first line of
/// a paste.
pub proof fn how_long_a_paste_may_take(staged: u64, now: u64)
    requires
        staged <= now,
    ensures
        goes_on(staged, now, true) <==> now - staged <= 20_000_000,
        !goes_on(staged, now, false),
{
}

/// What Escape does: it holds back what is queued, else stops the turn, else gives
/// back the draft, else clears it, else ends the session.
pub proof fn what_escape_does(m: ViewModel)
    ensures
        m.busy && m.queued_messages > 0 && !m.queued_after_tool ==> m.escape()
            == EscAction::QueueAfterTool,
        m.busy && (m.queued_messages <= 0 || m.queued_after_tool) ==> m.escape()
            == EscAction::Cancel,
        !m.busy && m.history_pos is Some ==> m.escape() == EscAction::RestoreDraft,
        !m.busy && m.history_pos is None && m.composer.len() > 0 ==> m.escape() == EscAction::Clear,
        !m.busy && m.history_pos is None && m.composer.len() == 0 ==> m.escape() == EscAction::Quit,
{
}

/// The modes follow one another in this order.
pub proof fn the_order_of_the_modes()
    ensures
        next_mode(AgentMode::Default) == AgentMode::AcceptEdits,
        next_mode(AgentMode::AcceptEdits) == AgentMode::Plan,
        next_mode(AgentMode::Plan) == AgentMode::Auto,
        next_mode(AgentMode::Auto) == AgentMode::Ask,
        next_mode(AgentMode::Ask) == AgentMode::Default,
{
}

proof fn lemma_last_white(s: Seq<char>, i: int, n: int)
    requires
        0 <= i < n <= s.len(),
        white(s[i]),
        forall|k: int| i < k < n ==> !white(#[trigger] s[k]),
    ensures
        last_white_before(s, n) == Some(i),
    decreases n - i,
{
    if i < n - 1 {
        assert(!white(s[n - 1]));
        lemma_last_white(s, i, n - 1);
    }
}

proof fn lemma_no_white(s: Seq<char>, n: int)
    requires
        0 <= n <= s.len(),
        forall|k: int| 0 <= k < n ==> !white(#[trigger] s[k]),
    ensures
        last_white_before(s, n) is None,
    decreases n,
{
    if n > 0 {
        assert(!white(s[n - 1]));
        lemma_no_white(s, n - 1);
    }
}

/// Taking back a word takes the word, the white space behind it and the one
/// before it, and leaves what stands before.
pub proof fn taking_back_a_word(a: Seq<char>, gap: char, w: Seq<char>, b: Seq<char>)
    requires
        white(gap),
        w.len() > 0,
        forall|i: int| 0 <= i < w.len() ==> !white(#[trigger] w[i]),
        blank(b),
    ensures
        without_last_word(a + seq![gap] + w + b) == a,
        without_last_word(w + b) == Seq::<char>::empty(),
{
    let t = a + seq![gap] + w;
    assert(!white(w[w.len() - 1]));
    assert(!white(w[0]));
    assert(t.last() == w.last());
    lemma_trimmed_end(t, b);
    lemma_trimmed_end(w, b);
    assert(t[a.len() as int] == gap);
    assert forall|k: int| a.len() < k < t.len() implies !white(#[trigger] t[k]) by {
        assert(t[k] == w[k - a.len() - 1]);
    }
    lemma_last_white(t, a.len() as int, t.len() as int);
    assert(t.take(a.len() as int) =~= a);
    lemma_no_white(w, w.len() as int);
}

proof fn lemma_trimmed_end(s: Seq<char>, b: Seq<char>)
    requires
        blank(b),
        s.len() > 0,
        !white(s.last()),
    ensures
        trim_end(s + b) == s,
    decreases b.len(),
{
    if b.len() == 0 {
        assert(s + b =~= s);
    } else {
        assert(white(b[b.len() - 1]));
        assert((s + b).drop_last() =~= s + b.drop_last());
        assert forall|i: int| 0 <= i < b.drop_last().len() implies white(
            #[trigger] b.drop_last()[i],
        ) by {
            assert(b.drop_last()[i] == b[i]);
        }
        lemma_trimmed_end(s, b.drop_last());
    }
}

/// The history takes a prompt in at the end, unless it is blank or the same as the
/// last, and lets the oldest go when it is full.
pub proof fn what_the_history_takes_in(h: Seq<Seq<char>>, entry: Seq<char>)
    requires
        h.len() <= 2000,
    ensures
        blank(entry) ==> remembered(h, entry) == h,
        h.len() > 0 && h.last() == entry ==> remembered(h, entry) == h,
        !blank(entry) && (h.len() == 0 || h.last() != entry) ==> {
            &&& h.len() < 2000 ==> remembered(h, entry) == h.push(entry)
            &&& h.len() == 2000 ==> remembered(h, entry) == h.push(entry).skip(
                1,
            )
        },
{
    if blank(entry) {
        crate::words::nothing_is_left_of_white_space(entry);
    } else {
        lemma_something_left(entry);
    }
    assert(h.push(entry).len() != h.len());
}

proof fn lemma_something_left(s: Seq<char>)
    requires
        !blank(s),
    ensures
        trim(s).len() > 0,
    decreases s.len(),
{
    let k = choose|k: int| 0 <= k < s.len() && !white(#[trigger] s[k]);
    if white(s[0]) {
        assert(s.skip(1)[k - 1] == s[k]);
        lemma_something_left(s.skip(1));
    } else {
        lemma_trim_keeps_first(s);
    }
}

/// A file of prompts that are not blank and differ from one line to the next is
/// taken in whole.
pub proof fn a_tidy_file_is_taken_in_whole(ls: Seq<Seq<char>>, n: nat)
    requires
        n <= ls.len(),
        forall|i: int| 0 <= i < ls.len() ==> !blank(#[trigger] ls[i]),
        forall|i: int, j: int| 0 <= i && j == i + 1 && j < ls.len() ==> #[trigger] ls[i] != #[trigger] ls[j],
    ensures
        entries(ls, n) == ls.take(n as int),
    decreases n,
{
    if n > 0 {
        a_tidy_file_is_taken_in_whole(ls, (n - 1) as nat);
        assert(!blank(ls[n - 1]));
        lemma_something_left(ls[n - 1]);
        if n > 1 {
            assert(ls[n - 2] != ls[n - 1]);
            assert(ls.take(n - 1).last() == ls[n - 2]);
        }
        assert(ls.take(n - 1).push(ls[n - 1]) =~= ls.take(n as int));
    } else {
        assert(ls.take(0) =~= Seq::<Seq<char>>::empty());
    }
}

/// Browsing starts at the newest prompt, goes back one at a time and stops at the
/// oldest; forwards it goes on one at a time and ends at the draft.
pub proof fn how_the_history_is_browsed(h: Seq<Seq<char>>, draft: Seq<char>, i: usize)
    requires
        0 < h.len() <= usize::MAX,
        i < h.len(),
    ensures
        browsed(h, None, draft, true) == (Some((h.len() - 1) as usize), h.last()),
        browsed(h, None, draft, false) == (None::<usize>, draft),
        i > 0 ==> browsed(h, Some(i), draft, true) == (Some((i - 1) as usize), h[i - 1]),
        browsed(h, Some(0usize), draft, true) == (Some(0usize), h[0]),
        i + 1 < h.len() ==> browsed(h, Some(i), draft, false) == (Some((i + 1) as usize), h[i + 1]),
        i + 1 == h.len() ==> browsed(h, Some(i), draft, false) == (None::<usize>, draft),
        browsed(Seq::empty(), None, draft, true) == (None::<usize>, draft),
{
}

/// A direction is put behind the standing instruction of a loop.
pub proof fn what_a_loop_is_told(d: Seq<char>)
    ensures
        loop_text(Some(d)) == loop_text(None) + " Additional direction: "@ + d,
{
}

/// Two menus are the same where they offer the same things of the same kind.
pub proof fn when_menus_are_the_same(
    a: crate::complete::CompletionView,
    b: crate::complete::CompletionView,
)
    ensures
        alike(a, b) <==> (a.kind == b.kind && a.candidates == b.candidates),
{
}

} // verus!
