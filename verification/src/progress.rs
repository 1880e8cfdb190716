//! What becomes of the screen as a turn goes on: event by event, and with the
//! mouse.
use crate::app::{ActionView, AppModel, EventView};
use crate::fit::{divider, line_text};
use crate::markup::told;
use crate::paths::same_place;
use crate::report::{
    call_in,
    detail_rows,
    error_rows,
    prompt_line,
    retry_line,
    summary_line,
    turn_duration,
    ResultView,
};
use crate::screen::LiveKind;
use crate::slash::transcript_text;
use crate::styled::{blank_line, plain_style, raw, LineView, SpanView};
use crate::text::{decimal, split};
use crate::theme::Palette;
use crate::turn::{
    announced,
    call_rows,
    change_stats,
    collapsed,
    net_stats,
    restored,
    restored_turn,
    LiveView,
    ToolCallView,
    TurnView,
};
use crate::view::{
    answer_lines,
    first_visible,
    has_text,
    live_lines,
    reasoning_rows,
    target_from,
    thought_line,
    thought_row,
    AgentMode,
    AskView,
    FileChangeView,
    Hitbox,
    ReasoningView,
    Selection,
    ToolView,
    Usage,
    ViewModel,
};
use crate::pointer::MouseKind;
use vstd::prelude::*;
use vstd::string::*;

verus! {

/// Only what is shown has changed, and nothing is to be done.
pub open spec fn only_shown(before: AppModel, after: (AppModel, Seq<ActionView>)) -> bool {
    after.1.len() == 0 && after.0 == AppModel { view: after.0.view, ..before }
}

// ---- what streams -----------------------------------------------------------
/// Answer text is put behind what has come, counted from its first piece on, and
/// the thinking before it is timed.
pub proof fn text_streams_in(s: AppModel, t: Seq<char>, now: u64, p: Palette)
    ensures
        ({
            let r = s.after(EventView::Text(t), now, p);
            let v = r.0.view;
            &&& only_shown(s, r)
            &&& v.current_text == s.view.current_text + t
            &&& v.current_reasoning == s.view.current_reasoning
            &&& v.transcript == s.view.transcript
            &&& v.current_dirty
            &&& s.view.stream_started is None ==> v.stream_started == Some(now)
            &&& s.view.stream_started is Some ==> v.stream_started == s.view.stream_started
            &&& s.view.stream_chars + t.len() <= u64::MAX ==> v.stream_chars == s.view.stream_chars
                + t.len()
            &&& s.view.current_reasoning.len() == 0 ==> v.reasoning_elapsed
                == s.view.reasoning_elapsed
            &&& s.view.current_reasoning.len() > 0 && s.view.reasoning_elapsed is None
                && s.view.reasoning_started is Some && s.view.reasoning_started->0 <= now
                ==> v.reasoning_elapsed == Some((now - s.view.reasoning_started->0) as u64)
            &&& s.view.reasoning_elapsed is Some ==> v.reasoning_elapsed == s.view.reasoning_elapsed
        }),
{
    reveal(ViewModel::showing);
    reveal(ViewModel::with_text);
}

/// Reasoning is put behind what has come; the first piece starts its clock.
pub proof fn reasoning_streams_in(s: AppModel, t: Seq<char>, now: u64, p: Palette)
    ensures
        ({
            let r = s.after(EventView::Reasoning(t), now, p);
            let v = r.0.view;
            &&& only_shown(s, r)
            &&& v.current_reasoning == s.view.current_reasoning + t
            &&& v.current_text == s.view.current_text
            &&& v.transcript == s.view.transcript
            &&& v.current_dirty
            &&& s.view.reasoning_started is None ==> v.reasoning_started == Some(now)
            &&& s.view.reasoning_started is Some ==> v.reasoning_started == s.view.reasoning_started
        }),
{
    reveal(ViewModel::showing);
    reveal(ViewModel::with_reasoning);
}

/// Nothing streams.
pub open spec fn quiet(v: ViewModel) -> bool {
    v.current_text.len() == 0 && v.current_reasoning.len() == 0
}

/// What has streamed goes to the transcript once: an answer as its lines, and
/// reasoning as one row before it, behind which its lines are kept.
pub proof fn what_has_streamed_is_kept(v: ViewModel, now: u64, p: Palette)
    ensures
        quiet(v) ==> v.flushed(now, p) == v,
        quiet(v.flushed(now, p)),
        v.current_text.len() > 0 && v.current_reasoning.len() == 0 ==> {
            &&& v.flushed(now, p).transcript == v.transcript + answer_lines(v.current_text, p)
            &&& v.flushed(now, p).reasoning_blocks == v.reasoning_blocks
        },
        v.current_reasoning.len() > 0 && v.reasoning_elapsed is Some ==> {
            let row = thought_line(v.reasoning_elapsed, false, p);
            let f = v.flushed(now, p);
            &&& v.current_text.len() == 0 ==> f.transcript == v.transcript.push(row)
            &&& v.current_text.len() > 0 ==> f.transcript == v.transcript.push(row).push(
                blank_line(),
            ) + answer_lines(v.current_text, p)
            &&& f.reasoning_blocks == v.reasoning_blocks.push(
                ReasoningView {
                    summary_index: v.transcript.len() as int,
                    body: reasoning_rows(v.current_reasoning, p),
                    elapsed: v.reasoning_elapsed,
                    expanded: false,
                },
            )
        },
{
    reveal(ViewModel::flushed);
}

/// Reasoning that is still being timed is timed up to now.
pub proof fn thinking_is_timed_up_to_now(v: ViewModel, start: u64, now: u64, p: Palette)
    requires
        v.current_reasoning.len() > 0,
        v.current_text.len() == 0,
        v.reasoning_elapsed is None,
        v.reasoning_started == Some(start),
        start <= now,
    ensures
        v.flushed(now, p).transcript == v.transcript.push(
            thought_line(Some((now - start) as u64), false, p),
        ),
        v.flushed(now, p).reasoning_blocks.last().elapsed == Some((now - start) as u64),
        v.flushed(now, p).reasoning_started is None,
        v.flushed(now, p).reasoning_elapsed is None,
{
    reveal(ViewModel::flushed);
}

/// The row of a thought says how long it took, and whether it is open.
pub proof fn how_a_thought_is_told(seconds: Seq<char>, p: Palette)
    ensures
        thought_row(Some(seconds), false, p).spans[0].content == "▸ "@,
        thought_row(Some(seconds), true, p).spans[0].content == "▾ "@,
        thought_row(Some(seconds), true, p).spans[1].content == "thought for "@ + seconds + "s"@,
        thought_row(None, true, p).spans[1].content == "thought"@,
{
}

/// Every line of reasoning has a row of its own, set in.
pub proof fn reasoning_has_a_row_for_every_line(text: Seq<char>, i: int, p: Palette)
    requires
        0 <= i < split(text, '\n').len(),
    ensures
        reasoning_rows(text, p).len() == split(text, '\n').len(),
        reasoning_rows(text, p)[i].spans == seq![raw("  "@ + split(text, '\n')[i])],
        reasoning_rows(text, p)[i].style == p.reasoning(),
{
}

/// While a turn streams, its reasoning is one row, and its answer is shown as it
/// will be kept.
pub proof fn what_shows_while_it_streams(
    reasoning: Seq<char>,
    text: Seq<char>,
    elapsed: u64,
    p: Palette,
)
    ensures
        reasoning.len() == 0 && text.len() > 0 ==> live_lines(reasoning, text, Some(elapsed), p)
            == answer_lines(text, p),
        reasoning.len() > 0 && text.len() == 0 ==> live_lines(reasoning, text, None, p) == seq![
            (LineView { spans: seq![raw("Marathoning"@)], style: p.chrome() }),
        ],
        reasoning.len() > 0 && text.len() > 0 ==> live_lines(reasoning, text, Some(elapsed), p)
            == seq![thought_line(Some(elapsed), false, p), blank_line()] + answer_lines(text, p),
        reasoning.len() == 0 && text.len() == 0 ==> live_lines(reasoning, text, None, p).len() == 0,
{
    let e = Seq::<LineView>::empty();
    assert(e + answer_lines(text, p) =~= answer_lines(text, p));
}

proof fn lemma_first_visible(ls: Seq<LineView>, i: int, k: int)
    requires
        0 <= i <= k < ls.len(),
        has_text(ls[k]),
        forall|j: int| i <= j < k ==> !has_text(#[trigger] ls[j]),
    ensures
        first_visible(ls, i) == k,
    decreases k - i,
{
    if i < k {
        assert(!has_text(ls[i]));
        lemma_first_visible(ls, i + 1, k);
    }
}

/// The first line of an answer that shows something has the mark in front of it,
/// and every later one that takes room two spaces.
pub proof fn an_answer_stands_behind_its_mark(text: Seq<char>, k: int, i: int, p: Palette)
    requires
        0 <= k < crate::markdown::blocks(text, p).len(),
        has_text(crate::markdown::blocks(text, p)[k]),
        forall|j: int| 0 <= j < k ==> !has_text(#[trigger] crate::markdown::blocks(text, p)[j]),
        k <= i < crate::markdown::blocks(text, p).len(),
        crate::fit::line_cells(crate::markdown::blocks(text, p)[i]) > 0,
    ensures
        ({
            let l = crate::markdown::blocks(text, p)[i];
            let mark = if i == k {
                SpanView { content: "✻"@ + " "@, style: p.accent() }
            } else {
                raw("  "@)
            };
            answer_lines(text, p)[i] == LineView { spans: seq![mark] + l.spans, style: l.style }
        }),
{
    lemma_first_visible(crate::markdown::blocks(text, p), 0, k);
}

/// Lines of an answer that take no room, and those before the first that shows
/// something, are left alone.
pub proof fn blank_lines_of_an_answer_are_left_alone(text: Seq<char>, k: int, i: int, p: Palette)
    requires
        0 <= k < crate::markdown::blocks(text, p).len(),
        has_text(crate::markdown::blocks(text, p)[k]),
        forall|j: int| 0 <= j < k ==> !has_text(#[trigger] crate::markdown::blocks(text, p)[j]),
        0 <= i < crate::markdown::blocks(text, p).len(),
        i < k || crate::fit::line_cells(crate::markdown::blocks(text, p)[i]) == 0,
    ensures
        answer_lines(text, p).len() == crate::markdown::blocks(text, p).len(),
        answer_lines(text, p)[i] == crate::markdown::blocks(text, p)[i],
{
    lemma_first_visible(crate::markdown::blocks(text, p), 0, k);
}

/// Reasoning that is not timed yet is one word above the answer; reasoning that is
/// timed, alone, is its row.
pub proof fn what_shows_of_reasoning(
    reasoning: Seq<char>,
    text: Seq<char>,
    elapsed: u64,
    p: Palette,
)
    requires
        reasoning.len() > 0,
        text.len() > 0,
    ensures
        live_lines(reasoning, text, None, p) == seq![
            (LineView { spans: seq![raw("Marathoning"@)], style: p.chrome() }),
            blank_line(),
        ] + answer_lines(text, p),
        live_lines(reasoning, Seq::empty(), Some(elapsed), p) == seq![
            thought_line(Some(elapsed), false, p),
        ],
{
}

// ---- events -----------------------------------------------------------------
/// A question is put as it came, and closed when it is decided.
pub proof fn a_question_is_put_and_closed(
    s: AppModel,
    id: u64,
    tool: Seq<char>,
    command: Option<Seq<char>>,
    reason: Seq<char>,
    now: u64,
    p: Palette,
)
    ensures
        ({
            let r = s.after(EventView::PermissionAsk { id, tool, command, reason }, now, p);
            &&& only_shown(s, r)
            &&& r.0.view.pending_ask == Some(AskView { id, tool, command, reason })
            &&& quiet(s.view) ==> r.0.view == ViewModel {
                pending_ask: Some(AskView { id, tool, command, reason }),
                ..s.view
            }
        }),
        s.after(EventView::PermissionDecision, now, p) == (
            AppModel { view: ViewModel { pending_ask: None, ..s.view }, ..s },
            Seq::<ActionView>::empty(),
        ),
{
    reveal(ViewModel::showing);
    reveal(ViewModel::asked);
    what_has_streamed_is_kept(s.view, now, p);
}

/// What is reported of tokens, modes and iterations changes just what it is about.
pub proof fn reports_change_what_they_are_about(
    s: AppModel,
    u: Usage,
    n: u64,
    mode: AgentMode,
    now: u64,
    p: Palette,
)
    ensures
        s.after(EventView::Usage(u), now, p) == (
            AppModel {
                view: ViewModel {
                    context_tokens: Some(u.prompt_tokens),
                    context_tokens_estimated: false,
                    cache_hit_rate: u.cache_hit_rate,
                    last_usage: Some(u),
                    ..s.view
                },
                ..s
            },
            Seq::<ActionView>::empty(),
        ),
        s.after(EventView::Context { est_tokens: n }, now, p) == (
            AppModel {
                view: ViewModel {
                    context_tokens: Some(n),
                    context_tokens_estimated: true,
                    cache_hit_rate: None,
                    ..s.view
                },
                ..s
            },
            Seq::<ActionView>::empty(),
        ),
        s.after(EventView::ModeChanged(mode), now, p) == (
            AppModel { view: ViewModel { mode, ..s.view }, ..s },
            Seq::<ActionView>::empty(),
        ),
        s.after(EventView::Iter, now, p) == (s, Seq::<ActionView>::empty()),
{
    reveal(ViewModel::showing);
    reveal(ViewModel::estimated);
}

/// A notice, a recovered request and a gap in the stream are each told in a line at
/// the end.
pub proof fn what_is_told_at_the_end(
    s: AppModel,
    t: Seq<char>,
    retries: u32,
    n: u64,
    now: u64,
    p: Palette,
)
    requires
        quiet(s.view),
    ensures
        s.after(EventView::Notice(t), now, p).0.view == (ViewModel {
            transcript: s.view.transcript.push(
                LineView { spans: seq![raw("· "@ + t)], style: p.chrome() },
            ),
            ..s.view
        }),
        s.after(EventView::Retry { retries }, now, p).0.view == (ViewModel {
            transcript: s.view.transcript.push(retry_line(retries, p)),
            ..s.view
        }),
        s.after(EventView::Lagged(n), now, p).0.view == (ViewModel {
            transcript: s.view.transcript.push(
                LineView {
                    spans: seq![
                        raw("[stream lagged "@ + decimal(n as nat) + "; oldest deltas lost]"@),
                    ],
                    style: plain_style(),
                },
            ),
            ..s.view
        }),
{
    reveal(ViewModel::showing);
    what_has_streamed_is_kept(s.view, now, p);
}

/// A turn that begins takes the first prompt that waits, where none is going on.
pub proof fn a_turn_takes_the_first_that_waits(s: AppModel, now: u64, p: Palette)
    requires
        !s.view.busy,
        s.queued_prompts.len() > 0,
    ensures
        ({
            let r = s.after(EventView::Ready, now, p);
            let first = s.queued_prompts[0];
            &&& r.1 == seq![ActionView::Remember(first)]
            &&& r.0.queued_prompts == s.queued_prompts.skip(1)
            &&& r.0.view.queued_messages == s.queued_prompts.len() - 1
            &&& !r.0.send_queued_after_tool
            &&& !r.0.view.queued_after_tool
            &&& r.0.view.transcript == s.view.transcript.push(prompt_line(first, p))
            &&& r.0.view.busy
            &&& r.0.view.turn_started == Some(now)
            &&& r.0.view.reasoning_started == Some(now)
            &&& r.0.view.running == 0
            &&& r.0.view.stream_chars == 0
            &&& r.0.view.stream_started is None
        }),
{
    reveal(AppModel::after_ready);
    reveal(AppModel::with_queued);
    reveal(ViewModel::readied);
    reveal(ViewModel::prompted);
    reveal(ViewModel::begun);
}

/// A turn that begins with nothing waiting is marked as going on from now, or from
/// when it was marked before.
pub proof fn a_turn_begins(s: AppModel, now: u64, p: Palette)
    requires
        s.queued_prompts.len() == 0 || s.view.busy,
    ensures
        ({
            let r = s.after(EventView::Ready, now, p);
            &&& r.1.len() == 0
            &&& r.0.queued_prompts == s.queued_prompts
            &&& r.0.view.transcript == s.view.transcript
            &&& r.0.view.busy
            &&& s.view.turn_started is None ==> r.0.view.turn_started == Some(now)
            &&& s.view.turn_started is Some ==> r.0.view.turn_started == s.view.turn_started
            &&& s.view.reasoning_started is Some ==> r.0.view.reasoning_started
                == s.view.reasoning_started
            &&& s.view.reasoning_started is None ==> r.0.view.reasoning_started
                == r.0.view.turn_started
        }),
{
    reveal(AppModel::after_ready);
    reveal(AppModel::with_queued);
    reveal(ViewModel::readied);
}

proof fn lemma_not_live(live: Seq<LiveView>, id: Seq<char>, i: int)
    requires
        0 <= i <= live.len(),
        forall|k: int| i <= k < live.len() ==> (#[trigger] live[k]).id != id,
    ensures
        crate::turn::live_from(live, id, i) is None,
    decreases live.len() - i,
{
    if i < live.len() {
        assert(live[i].id != id);
        lemma_not_live(live, id, i + 1);
    }
}

proof fn lemma_live(live: Seq<LiveView>, id: Seq<char>, i: int, k: int)
    requires
        0 <= i <= k < live.len(),
        live[k].id == id,
        forall|j: int| i <= j < k ==> (#[trigger] live[j]).id != id,
    ensures
        crate::turn::live_from(live, id, i) == Some(k),
    decreases k - i,
{
    if i < k {
        assert(live[i].id != id);
        lemma_live(live, id, i + 1, k);
    }
}

/// A call that starts is shown at the end, counted, and remembered with where it
/// stands and when it began.
pub proof fn a_call_starts(s: AppModel, call: ToolCallView, now: u64, p: Palette)
    requires
        quiet(s.view),
        forall|k: int| 0 <= k < s.live_tools.len() ==> (#[trigger] s.live_tools[k]).id != call.id,
        s.view.running < u32::MAX,
    ensures
        ({
            let r = s.after(EventView::ToolStart { call }, now, p);
            let rows = call_rows(call.name, call_in(call.arguments), call.arguments, p);
            &&& r.1.len() == 0
            &&& r.0.view.transcript == s.view.transcript + rows
            &&& r.0.view.running == s.view.running + 1
            &&& r.0.view.running_tool == Some(call.name)
            &&& r.0.live_tools == s.live_tools.push(
                LiveView {
                    id: call.id,
                    start: s.view.transcript.len() as int,
                    len: rows.len() as int,
                    tool: call.name,
                    started: now,
                },
            )
        }),
{
    reveal(ViewModel::call_started);
    what_has_streamed_is_kept(s.view, now, p);
    lemma_not_live(s.live_tools, call.id, 0);
}

/// A call that ends as it should takes its rows with it; one that does not leaves
/// a row that opens on them and on what went wrong. With the last call thinking
/// begins, and where it was asked for the turn is stopped.
pub proof fn a_call_ends(
    s: AppModel,
    k: int,
    tool: Seq<char>,
    result: ResultView,
    now: u64,
    p: Palette,
)
    requires
        quiet(s.view),
        0 <= k < s.live_tools.len(),
        forall|j: int|
            0 <= j < k ==> (#[trigger] s.live_tools[j]).id != s.live_tools[k].id,
        s.live_tools[k].len > 0,
        0 <= s.live_tools[k].start,
        s.live_tools[k].start + s.live_tools[k].len <= s.view.transcript.len(),
        s.live_tools[k].started <= now,
    ensures
        ({
            let b = s.live_tools[k];
            let end = b.start + b.len;
            let t = s.view.transcript;
            let elapsed = (now - b.started) as u64;
            let r = s.after(EventView::ToolEnd { call_id: b.id, tool, result }, now, p);
            let v = r.0.view;
            &&& result is Success ==> v.transcript == t.take(b.start) + t.skip(end)
            &&& !(result is Success) ==> {
                &&& v.transcript == t.take(b.start).push(
                    summary_line(b.tool, result, elapsed, false, p),
                ) + t.skip(end)
                &&& v.tool_blocks.last() == ToolView {
                    summary_index: b.start,
                    body: t.subrange(b.start, end) + detail_rows(result, p),
                    collapsed_line: summary_line(b.tool, result, elapsed, false, p),
                    expanded_line: summary_line(b.tool, result, elapsed, true, p),
                    expanded: false,
                }
            }
            &&& s.view.running > 0 ==> v.running == s.view.running - 1
            &&& s.view.running <= 1 ==> v.running == 0 && v.running_tool is None
                && v.reasoning_started == Some(now)
            &&& s.view.running > 1 ==> v.running_tool == s.view.running_tool
            &&& r.0.live_tools.len() == s.live_tools.len() - 1
            &&& s.view.running <= 1 && s.send_queued_after_tool ==> r.1 == seq![ActionView::Cancel]
                && !r.0.send_queued_after_tool && !v.queued_after_tool
            &&& s.view.running > 1 || !s.send_queued_after_tool ==> r.1.len() == 0
        }),
{
    reveal(AppModel::after_call);
    reveal(ViewModel::call_ended);
    what_has_streamed_is_kept(s.view, now, p);
    lemma_live(s.live_tools, s.live_tools[k].id, 0, k);
    let b = s.live_tools[k];
    let t = s.view.transcript;
    let e = Seq::<LineView>::empty();
    assert(t.take(b.start) + e =~= t.take(b.start));
    let row = summary_line(b.tool, result, (now - b.started) as u64, false, p);
    assert(t.take(b.start) + seq![row] =~= t.take(b.start).push(row));
}

/// Other calls in flight keep their rows: those behind the one that ended move up
/// by the rows that are gone, the others stay.
pub proof fn other_calls_keep_their_rows(
    s: AppModel,
    k: int,
    j: int,
    tool: Seq<char>,
    result: ResultView,
    now: u64,
    p: Palette,
)
    requires
        quiet(s.view),
        0 <= k < s.live_tools.len(),
        forall|q: int|
            0 <= q < k ==> (#[trigger] s.live_tools[q]).id != s.live_tools[k].id,
        s.live_tools[k].len > 0,
        0 <= s.live_tools[k].start,
        s.live_tools[k].start + s.live_tools[k].len <= s.view.transcript.len(),
        0 <= j < s.live_tools.len(),
        j != k,
    ensures
        ({
            let b = s.live_tools[k];
            let o = s.live_tools[j];
            let gone = if result is Success {
                b.len
            } else {
                b.len - 1
            };
            let r = s.after(EventView::ToolEnd { call_id: b.id, tool, result }, now, p);
            let at = if j < k {
                j
            } else {
                j - 1
            };
            &&& o.start >= b.start + b.len ==> r.0.live_tools[at] == LiveView {
                start: o.start - gone,
                ..o
            }
            &&& o.start < b.start ==> r.0.live_tools[at] == o
        }),
{
    reveal(AppModel::after_call);
    reveal(ViewModel::call_ended);
    what_has_streamed_is_kept(s.view, now, p);
    lemma_live(s.live_tools, s.live_tools[k].id, 0, k);
    let rest = s.live_tools.remove(k);
    let at = if j < k {
        j
    } else {
        j - 1
    };
    assert(rest[at] == s.live_tools[j]);
}

/// The end of a call that is not known is told at the end where it went wrong, and
/// leaves nothing where it went well.
pub proof fn the_end_of_an_unknown_call(
    m: ViewModel,
    live: Seq<LiveView>,
    id: Seq<char>,
    tool: Seq<char>,
    r: ResultView,
    now: u64,
    p: Palette,
)
    requires
        forall|k: int| 0 <= k < live.len() ==> (#[trigger] live[k]).id != id,
    ensures
        r is Success ==> collapsed(m, live, id, tool, r, now, p) == (m, live),
        !(r is Success) ==> {
            let c = collapsed(m, live, id, tool, r, now, p);
            &&& c.1 == live
            &&& c.0.transcript == m.transcript.push(summary_line(tool, r, 0, false, p))
            &&& c.0.tool_blocks.last().body == detail_rows(r, p)
            &&& c.0.tool_blocks.last().summary_index == m.transcript.len()
        },
{
    lemma_not_live(live, id, 0);
}

/// A prompt that was taken stands in the transcript and in the history, and its turn
/// has begun, with nothing counted yet.
pub proof fn a_prompt_that_was_taken_begins_a_turn(
    v: ViewModel,
    text: Seq<char>,
    now: u64,
    p: Palette,
)
    ensures
        ({
            let r = v.prompted(text, p).begun(now);
            &&& r.transcript == v.transcript.push(prompt_line(text, p))
            &&& r.prompt_history == crate::input::remembered(v.prompt_history, text)
            &&& r.history_pos is None
            &&& r.history_draft.len() == 0
            &&& r.busy
            &&& r.turn_started == Some(now)
            &&& r.reasoning_started == Some(now)
            &&& r.reasoning_elapsed is None
            &&& r.running == 0
            &&& r.running_tool is None
            &&& r.stream_chars == 0
            &&& r.stream_started is None
            &&& r.context_tokens is None
            &&& !r.context_tokens_estimated
            &&& r.cache_hit_rate is None
            &&& r.composer == v.composer
            &&& r.mode == v.mode
        }),
{
    reveal(ViewModel::prompted);
    reveal(ViewModel::begun);
}

/// A prompt that was queued waits behind the others; how many wait is said.
pub proof fn a_queued_prompt_waits(s: AppModel, text: Seq<char>, p: Palette)
    ensures
        ({
            let r = s.queued(text, p);
            let n = s.queued_prompts.len() + 1;
            let note = "· queued "@ + decimal(n) + (if n == 1 {
                " message"@
            } else {
                " messages"@
            }) + " — Esc sends after the next tool call"@;
            &&& r.queued_prompts == s.queued_prompts.push(text)
            &&& r.view.queued_messages == n
            &&& r.view.composer.len() == 0
            &&& r.view.paste_markers.len() == 0
            &&& r.view.history_pos is None
            &&& r.view.history_draft.len() == 0
            &&& r.view.follow
            &&& r.view.transcript == s.view.transcript.push(
                LineView { spans: seq![raw(note)], style: p.chrome() },
            )
            &&& r.pending_submit == s.pending_submit
            &&& !s.quit ==> !r.quit
        }),
{
    reveal(AppModel::queued);
    reveal(ViewModel::remarked);
    reveal(ViewModel::at_bottom);
}

/// The rows of a call: what is told of it, and for an edit the file and the words
/// that change.
pub proof fn how_a_call_is_shown(
    name: Seq<char>,
    c: crate::report::CallView,
    args: Seq<char>,
    p: Palette,
)
    ensures
        call_rows(name, c, args, p).len() > 0,
        call_rows(name, c, args, p)[0] == crate::report::start_line(
            name,
            crate::report::call_summary(c, args),
            p,
        ),
        crate::report::edit_in(c) is None ==> call_rows(name, c, args, p).len() == 1,
        forall|path: Seq<char>, old: Seq<char>, new: Seq<char>|
            crate::report::edit_in(c) == Some((path, old, new)) ==> {
                let rows = #[trigger] call_rows_of_edit(name, c, args, path, old, new, p);
                &&& rows.len() == 3
                &&& rows[1].spans == seq![raw("  ⤿ edit "@ + path)]
                &&& rows[2] == crate::diff::word_line(crate::diff::word_diff(old, new), p)
            },
{
}

/// The rows of a call that edits a file.
pub open spec fn call_rows_of_edit(
    name: Seq<char>,
    c: crate::report::CallView,
    args: Seq<char>,
    path: Seq<char>,
    old: Seq<char>,
    new: Seq<char>,
    p: Palette,
) -> Seq<LineView> {
    call_rows(name, c, args, p)
}

/// A turn that is over leaves a line between it and the next: how long it took and
/// how many lines it changed. Nothing goes on any more.
pub proof fn a_turn_ends(s: AppModel, start: u64, now: u64, p: Palette)
    requires
        quiet(s.view),
        s.live_tools.len() == 0,
        s.view.turn_started == Some(start),
        start <= now,
        s.view.transcript.len() == 0 || crate::fit::line_cells(s.view.transcript.last()) == 0,
    ensures
        ({
            let stats = net_stats(s.view.turn_file_changes, s.view.turn_file_changes.len());
            let mark = divider(
                turn_duration((now - start) as u64),
                stats.added as nat,
                stats.removed as nat,
                p,
            );
            let r = s.after(EventView::Outcome, now, p);
            &&& r.1.len() == 0
            &&& r.0.view.transcript == s.view.transcript.push(mark)
            &&& !r.0.view.busy
            &&& r.0.view.turn_started is None
            &&& r.0.view.running == 0
            &&& r.0.view.running_tool is None
            &&& r.0.view.turn_file_changes.len() == 0
            &&& r.0.view.reasoning_started is None
            &&& r.0.view.stream_started is None
            &&& s.after(EventView::Idle, now, p) == r
        }),
{
    reveal(ViewModel::wound_up);
    reveal(ViewModel::finished);
    reveal(ViewModel::at_rest);
    what_has_streamed_is_kept(s.view, now, p);
}

/// A blank line keeps the divider apart from what was said last.
pub proof fn a_divider_is_kept_apart(s: AppModel, start: u64, now: u64, p: Palette)
    requires
        quiet(s.view),
        s.live_tools.len() == 0,
        s.view.turn_started == Some(start),
        start <= now,
        s.view.transcript.len() > 0,
        crate::fit::line_cells(s.view.transcript.last()) > 0,
    ensures
        ({
            let r = s.after(EventView::Outcome, now, p).0.view.transcript;
            let n = s.view.transcript.len() as int;
            &&& r.len() == n + 2
            &&& r.take(n) == s.view.transcript
            &&& r[n].spans.len() == 0
            &&& crate::fit::is_divider(r[n + 1])
        }),
{
    reveal(ViewModel::wound_up);
    reveal(ViewModel::finished);
    reveal(ViewModel::at_rest);
    what_has_streamed_is_kept(s.view, now, p);
    let r = s.after(EventView::Outcome, now, p).0.view.transcript;
    assert(r.take(s.view.transcript.len() as int) =~= s.view.transcript);
    let stats = net_stats(s.view.turn_file_changes, s.view.turn_file_changes.len());
    crate::fit::dividers_are_recognised(
        turn_duration((now - start) as u64),
        stats.added as nat,
        stats.removed as nat,
        p,
    );
}

/// Nothing is said of a turn that was not going on.
pub proof fn no_turn_leaves_no_divider(s: AppModel, now: u64, p: Palette)
    requires
        quiet(s.view),
        s.live_tools.len() == 0,
        s.view.turn_started is None,
    ensures
        s.after(EventView::Idle, now, p).0.view.transcript == s.view.transcript,
        !s.after(EventView::Idle, now, p).0.view.busy,
{
    reveal(ViewModel::wound_up);
    reveal(ViewModel::finished);
    reveal(ViewModel::at_rest);
    what_has_streamed_is_kept(s.view, now, p);
}

/// A turn that fails is told of before its line.
pub proof fn a_turn_fails(s: AppModel, start: u64, e: Seq<char>, now: u64, p: Palette)
    requires
        quiet(s.view),
        s.live_tools.len() == 0,
        s.view.turn_started == Some(start),
        start <= now,
    ensures
        ({
            let r = s.after(EventView::Error(e), now, p);
            let rows = error_rows(e, p);
            let n = s.view.transcript.len() as int;
            &&& r.1.len() == 0
            &&& r.0.view.transcript.len() > n + rows.len()
            &&& r.0.view.transcript.take(n + rows.len()) == s.view.transcript + rows
            &&& !r.0.view.busy
        }),
{
    reveal(ViewModel::wound_up);
    reveal(ViewModel::finished);
    reveal(ViewModel::at_rest);
    what_has_streamed_is_kept(s.view, now, p);
    let r = s.after(EventView::Error(e), now, p);
    let rows = error_rows(e, p);
    assert(r.0.view.transcript.take(s.view.transcript.len() + rows.len() as int)
        =~= s.view.transcript + rows);
}

/// The lines that a turn changed are those of its files taken together.
pub proof fn changes_add_up(v: Seq<FileChangeView>, n: nat)
    requires
        n < v.len(),
        net_stats(v, n).added + change_stats(v[n as int]).added <= u32::MAX,
        net_stats(v, n).removed + change_stats(v[n as int]).removed <= u32::MAX,
    ensures
        net_stats(v, 0).added == 0,
        net_stats(v, 0).removed == 0,
        net_stats(v, n + 1).added == net_stats(v, n).added + change_stats(v[n as int]).added,
        net_stats(v, n + 1).removed == net_stats(v, n).removed + change_stats(v[n as int]).removed,
{
}

/// A file that is changed once more in a turn counts from what it first held; one
/// that is changed for the first time is put behind the others.
pub proof fn a_file_counts_from_its_start(
    v: ViewModel,
    cwd: Seq<char>,
    path: Seq<char>,
    before: Option<Seq<u8>>,
    after: Option<Seq<u8>>,
    k: int,
    p: Palette,
)
    requires
        0 <= k <= v.turn_file_changes.len(),
        k < v.turn_file_changes.len() ==> same_place(v.turn_file_changes[k].path, path),
        forall|j: int|
            0 <= j < k ==> !same_place((#[trigger] v.turn_file_changes[j]).path, path),
    ensures
        ({
            let f = v.changed(cwd, path, before, after, p).turn_file_changes;
            let old = v.turn_file_changes;
            &&& k == old.len() ==> f == old.push(FileChangeView { path, before, after })
            &&& k < old.len() ==> f == old.update(
                k,
                FileChangeView { path: old[k].path, before: old[k].before, after },
            )
        }),
{
    reveal(ViewModel::changed);
    lemma_change_of(v.turn_file_changes, path, 0, k);
}

proof fn lemma_change_of(v: Seq<FileChangeView>, path: Seq<char>, i: int, k: int)
    requires
        0 <= i <= k <= v.len(),
        k < v.len() ==> same_place(v[k].path, path),
        forall|j: int| i <= j < k ==> !same_place((#[trigger] v[j]).path, path),
    ensures
        ViewModel::change_of(v, path, i) == (if k < v.len() {
            Some(k)
        } else {
            None
        }),
    decreases k - i,
{
    if i < k {
        assert(!same_place(v[i].path, path));
        lemma_change_of(v, path, i + 1, k);
    }
}

// ---- a stored session -------------------------------------------------------
/// Every stored turn comes back as it was shown: prompts, answers, notes, errors
/// and cancellations; a call that went well and a change of mode leave nothing.
pub proof fn stored_turns_come_back(
    m: ViewModel,
    calls: Map<Seq<char>, ToolCallView>,
    t: Seq<char>,
    id: Seq<char>,
    tool: Seq<char>,
    duration: u64,
    content: Seq<char>,
    p: Palette,
)
    ensures
        restored_turn(m, calls, TurnView::User { content: t }, p) == (
            m.told(prompt_line(t, p)),
            calls,
        ),
        t.len() > 0 ==> restored_turn(
            m,
            calls,
            TurnView::Assistant { text: t, reasoning: None, calls: Seq::empty(), usage: None },
            p,
        ) == (ViewModel { transcript: m.transcript + answer_lines(t, p), ..m }, calls),
        restored_turn(
            m,
            calls,
            TurnView::ToolResult {
                call_id: id,
                tool,
                result: ResultView::Success { content, truncated: false },
                duration,
            },
            p,
        ) == (m, calls.remove(id)),
        restored_turn(m, calls, TurnView::SystemNote { mode_change: true, text: t }, p) == (
            m,
            calls,
        ),
        restored_turn(m, calls, TurnView::SystemNote { mode_change: false, text: t }, p)
            == (ViewModel {
            transcript: m.transcript.push(
                LineView { spans: seq![raw("· "@ + t)], style: p.chrome() },
            ),
            ..m
        }, calls),
        restored_turn(m, calls, TurnView::Error { message: t }, p) == (
            ViewModel { transcript: m.transcript + error_rows(t, p), ..m },
            calls,
        ),
        restored_turn(m, calls, TurnView::Cancelled, p) == (ViewModel {
            transcript: m.transcript.push(
                LineView { spans: seq![raw("· cancelled"@)], style: p.chrome() },
            ),
            ..m
        }, calls),
{
}

/// A stored call that went wrong comes back as its row, closed, over what was
/// called and what came of it.
pub proof fn a_stored_call_comes_back(
    m: ViewModel,
    calls: Map<Seq<char>, ToolCallView>,
    c: ToolCallView,
    result: ResultView,
    tool: Seq<char>,
    duration: u64,
    p: Palette,
)
    requires
        calls.dom().contains(c.id),
        calls[c.id] == c,
        c.name.len() > 0,
        !crate::text::white(c.name[0]),
        !crate::text::white(c.name.last()),
        !(result is Success),
    ensures
        ({
            let r = restored_turn(
                m,
                calls,
                TurnView::ToolResult { call_id: c.id, tool, result, duration },
                p,
            );
            &&& r.0.transcript == m.transcript.push(
                summary_line(c.name, result, duration, false, p),
            )
            &&& r.0.tool_blocks.len() == m.tool_blocks.len() + 1
            &&& r.0.tool_blocks.last().body == call_rows(
                c.name,
                call_in(c.arguments),
                c.arguments,
                p,
            ) + detail_rows(result, p)
            &&& !r.0.tool_blocks.last().expanded
            &&& r.0.tool_blocks.last().summary_index == m.transcript.len()
            &&& r.1 == calls.remove(c.id)
        }),
{
    assert(crate::text::trim(c.name) == c.name);
}

/// An answer comes back with its reasoning behind a closed row that does not say
/// how long it took, and with what it cost.
pub proof fn a_stored_answer_comes_back(
    m: ViewModel,
    calls: Map<Seq<char>, ToolCallView>,
    text: Seq<char>,
    reasoning: Seq<char>,
    u: Usage,
    p: Palette,
)
    requires
        text.len() > 0,
        reasoning.len() > 0,
    ensures
        ({
            let r = restored_turn(
                m,
                calls,
                TurnView::Assistant {
                    text,
                    reasoning: Some(reasoning),
                    calls: Seq::empty(),
                    usage: Some(u),
                },
                p,
            ).0;
            &&& r.transcript == m.transcript.push(thought_line(None, false, p)).push(blank_line())
                + answer_lines(text, p)
            &&& r.reasoning_blocks == m.reasoning_blocks.push(
                ReasoningView {
                    summary_index: m.transcript.len() as int,
                    body: reasoning_rows(reasoning, p),
                    elapsed: None,
                    expanded: false,
                },
            )
            &&& r.context_tokens == Some(u.prompt_tokens)
            &&& !r.context_tokens_estimated
            &&& r.last_usage == Some(u)
            &&& r.cache_hit_rate == u.cache_hit_rate
        }),
{
}

/// A stored result whose call is not known goes by the tool it names.
pub proof fn a_stored_result_without_its_call(
    m: ViewModel,
    calls: Map<Seq<char>, ToolCallView>,
    id: Seq<char>,
    result: ResultView,
    tool: Seq<char>,
    duration: u64,
    p: Palette,
)
    requires
        !calls.dom().contains(id),
        !(result is Success),
    ensures
        ({
            let r = restored_turn(
                m,
                calls,
                TurnView::ToolResult { call_id: id, tool, result, duration },
                p,
            ).0;
            &&& r.transcript == m.transcript.push(summary_line(tool, result, duration, false, p))
            &&& r.tool_blocks.last().body == detail_rows(result, p)
            &&& r.tool_blocks.last().expanded_line == summary_line(tool, result, duration, true, p)
        }),
{
    assert(Seq::<LineView>::empty() + detail_rows(result, p) =~= detail_rows(result, p));
}

/// Turns come back one behind the other: what one adds stands behind what was
/// there.
pub proof fn turns_come_back_in_order(m: ViewModel, turns: Seq<TurnView>, n: nat, p: Palette)
    requires
        n < turns.len(),
    ensures
        ({
            let before = restored(m, turns, n, p).0.transcript;
            let after = restored(m, turns, n + 1, p).0.transcript;
            &&& before.len() <= after.len()
            &&& after.take(before.len() as int) == before
        }),
        restored(m, turns, 0, p).0 == m,
        restored(m, turns, n + 1, p) == restored_turn(
            restored(m, turns, n, p).0,
            restored(m, turns, n, p).1,
            turns[n as int],
            p,
        ),
{
    let before = restored(m, turns, n, p).0.transcript;
    let after = restored(m, turns, n + 1, p).0.transcript;
    match turns[n as int] {
        TurnView::User { content } => {},
        TurnView::Assistant { text, reasoning, calls, usage } => {},
        TurnView::ToolResult { call_id, tool, result, duration } => {},
        TurnView::SystemNote { mode_change, text } => {},
        TurnView::Error { message } => {},
        TurnView::Cancelled => {},
    }
    assert(after.take(before.len() as int) =~= before);
}

/// Calls that an answer announces are known by their ids until they end.
pub proof fn announced_calls_are_known(
    m: Map<Seq<char>, ToolCallView>,
    calls: Seq<ToolCallView>,
    n: nat,
    k: int,
)
    requires
        0 <= k < n <= calls.len(),
        forall|j: int| k < j < n ==> (#[trigger] calls[j]).id != calls[k].id,
    ensures
        announced(m, calls, n).dom().contains(calls[k].id),
        announced(m, calls, n)[calls[k].id] == calls[k],
    decreases n,
{
    if k < n - 1 {
        assert(calls[n - 1].id != calls[k].id);
        announced_calls_are_known(m, calls, (n - 1) as nat, k);
    }
}

// ---- blocks -----------------------------------------------------------------
/// A closed block opens into its row and its lines, an open one closes into its
/// row alone; what stands before and behind stays.
pub proof fn blocks_open_in_place(m: ViewModel, i: int)
    requires
        0 <= i < m.tool_blocks.len(),
        0 <= m.tool_blocks[i].summary_index,
        m.tool_blocks[i].summary_index + 1 + (if m.tool_blocks[i].expanded {
            m.tool_blocks[i].body.len()
        } else {
            0
        }) <= m.transcript.len(),
    ensures
        ({
            let b = m.tool_blocks[i];
            let s = b.summary_index;
            let t = m.transcript;
            let r = m.toggled_tool(i);
            &&& r is Some
            &&& !b.expanded ==> r->0.transcript == t.take(s).push(b.expanded_line) + b.body + t.skip(
                s + 1,
            )
            &&& b.expanded ==> r->0.transcript == t.take(s).push(b.collapsed_line) + t.skip(
                s + 1 + b.body.len(),
            )
        }),
{
    let b = m.tool_blocks[i];
    let s = b.summary_index;
    let t = m.transcript;
    let r = m.toggled_tool(i)->0;
    if !b.expanded {
        assert(r.transcript =~= t.take(s).push(b.expanded_line) + b.body + t.skip(s + 1));
    } else {
        assert(r.transcript =~= t.take(s).push(b.collapsed_line) + t.skip(s + 1 + b.body.len()));
    }
}

/// The same holds of a thought.
pub proof fn thoughts_open_in_place(m: ViewModel, i: int, p: Palette)
    requires
        0 <= i < m.reasoning_blocks.len(),
        0 <= m.reasoning_blocks[i].summary_index,
        m.reasoning_blocks[i].summary_index + 1 + (if m.reasoning_blocks[i].expanded {
            m.reasoning_blocks[i].body.len()
        } else {
            0
        }) <= m.transcript.len(),
    ensures
        ({
            let b = m.reasoning_blocks[i];
            let s = b.summary_index;
            let t = m.transcript;
            let r = m.toggled_reasoning(i, p);
            &&& r is Some
            &&& !b.expanded ==> r->0.transcript == t.take(s).push(
                thought_line(b.elapsed, true, p),
            ) + b.body + t.skip(s + 1)
            &&& b.expanded ==> r->0.transcript == t.take(s).push(
                thought_line(b.elapsed, false, p),
            ) + t.skip(s + 1 + b.body.len())
        }),
{
    let b = m.reasoning_blocks[i];
    let s = b.summary_index;
    let t = m.transcript;
    let r = m.toggled_reasoning(i, p)->0;
    if !b.expanded {
        assert(r.transcript =~= t.take(s).push(thought_line(b.elapsed, true, p)) + b.body + t.skip(
            s + 1,
        ));
    } else {
        assert(r.transcript =~= t.take(s).push(thought_line(b.elapsed, false, p)) + t.skip(
            s + 1 + b.body.len(),
        ));
    }
}

// ---- the mouse --------------------------------------------------------------
/// A cell lies in a box from its corner on, as far as it is wide and high.
pub proof fn what_a_box_covers(b: Hitbox, column: u16, row: u16)
    requires
        b.x + b.width <= u16::MAX,
        b.y + b.height <= u16::MAX,
    ensures
        b.covers(column, row) <==> (b.x <= column < b.x + b.width && b.y <= row < b.y + b.height),
{
}

/// The first box that covers a cell is the one that is meant.
pub proof fn the_first_box_is_meant(boxes: Seq<Hitbox>, column: u16, row: u16, i: int, k: int)
    requires
        0 <= i <= k < boxes.len(),
        boxes[k].covers(column, row),
        forall|j: int| i <= j < k ==> !(#[trigger] boxes[j]).covers(column, row),
    ensures
        target_from(boxes, column, row, i) == Some(boxes[k].block_index as int),
    decreases k - i,
{
    if i < k {
        assert(!boxes[i].covers(column, row));
        the_first_box_is_meant(boxes, column, row, i + 1, k);
    }
}

/// The wheel moves the view by three lines, within what there is, drops a
/// selection, and follows the end again once it is reached.
pub proof fn the_wheel_moves_three_lines(m: ViewModel, column: u16, row: u16, quiet: bool, p: Palette)
    ensures
        ({
            let top = m.shown_top();
            let last = if m.all_lines() > m.height() {
                m.all_lines() - m.height()
            } else {
                0
            };
            let up = m.moused(MouseKind::ScrollUp, column, row, quiet, p);
            let down = m.moused(MouseKind::ScrollDown, column, row, quiet, p);
            &&& up.selection is None && down.selection is None
            &&& up.transcript == m.transcript && down.transcript == m.transcript
            &&& 0 <= m.scroll_top && top >= 3 && last > 0 ==> !up.follow && up.shown_top() == top - 3
            &&& 0 <= m.scroll_top && top < 3 && last > 0 ==> !up.follow && up.shown_top() == 0
            &&& 0 <= m.scroll_top && top + 3 < last ==> !down.follow && down.shown_top() == top + 3
            &&& 0 <= m.scroll_top && top + 3 >= last ==> down.follow && down.shown_top() == last
        }),
{
}

/// Pressing starts a selection, dragging moves its end, and letting go asks for a
/// copy where something was dragged over.
pub proof fn dragging_selects(m: ViewModel, column: u16, row: u16, quiet: bool, p: Palette)
    ensures
        m.moused(MouseKind::LeftDown, column, row, quiet, p) == (ViewModel {
            copy_notice: None,
            selection: Some(Selection { anchor: (column, row), head: (column, row) }),
            ..m
        }),
        m.selection is Some ==> m.moused(MouseKind::LeftDrag, column, row, quiet, p)
            == (ViewModel {
            selection: Some(Selection { anchor: m.selection->0.anchor, head: (column, row) }),
            ..m
        }),
        m.selection is None ==> m.moused(MouseKind::LeftDrag, column, row, quiet, p) == m,
        m.selection is Some && m.selection->0.anchor != m.selection->0.head ==> m.moused(
            MouseKind::LeftUp,
            column,
            row,
            quiet,
            p,
        ) == (ViewModel { copy_pending: true, ..m }),
        (m.selection is None || m.selection->0.anchor == m.selection->0.head) && !quiet ==> m.moused(
            MouseKind::LeftUp,
            column,
            row,
            quiet,
            p,
        ) == (ViewModel { selection: None, selection_text: None, ..m }),
        m.moused(MouseKind::Other, column, row, quiet, p) == m,
{
}

/// A click on the row of a call opens it, or closes it, and brings it to the top.
pub proof fn a_click_opens_a_call(m: ViewModel, column: u16, row: u16, k: int, p: Palette)
    requires
        m.selection is None,
        m.selection_text is None,
        m.reasoning_hitboxes.len() == 0,
        target_from(m.tool_hitboxes, column, row, 0) == Some(k),
        m.toggled_tool(k) is Some,
    ensures
        m.moused(MouseKind::LeftUp, column, row, true, p) == (ViewModel {
            follow: false,
            scroll_top: m.tool_blocks[k].summary_index,
            ..m.toggled_tool(k)->0
        }),
{
    assert(m.unselected() == m);
}

/// A click on a thought opens it, or closes it, and leaves the view where it is.
pub proof fn a_click_opens_a_thought(m: ViewModel, column: u16, row: u16, k: int, p: Palette)
    requires
        m.selection is None,
        m.selection_text is None,
        target_from(m.reasoning_hitboxes, column, row, 0) == Some(k),
        m.toggled_reasoning(k, p) is Some,
    ensures
        m.moused(MouseKind::LeftUp, column, row, true, p) == (ViewModel {
            follow: false,
            scroll_top: m.shown_top(),
            ..m.toggled_reasoning(k, p)->0
        }),
{
    assert(m.unselected() == m);
}

/// A click where nothing opens changes nothing.
pub proof fn a_click_elsewhere_does_nothing(m: ViewModel, column: u16, row: u16, p: Palette)
    requires
        m.selection is None,
        m.selection_text is None,
        target_from(m.reasoning_hitboxes, column, row, 0) is None,
        target_from(m.tool_hitboxes, column, row, 0) is None,
    ensures
        m.moused(MouseKind::LeftUp, column, row, true, p) == m,
{
    assert(m.unselected() == m);
}

// ---- the screen -------------------------------------------------------------
/// What shows below the transcript while nothing streams: the running tool, else
/// that it thinks, while the session works.
pub proof fn what_shows_below(m: ViewModel)
    ensures
        m.busy && quiet(m) && m.running > 0 ==> m.live_kind() == LiveKind::Tool,
        m.busy && quiet(m) && m.running == 0 ==> m.live_kind() == LiveKind::Thinking,
        !m.busy || !quiet(m) ==> m.live_kind() == LiveKind::Nothing,
{
}

/// A view that follows shows the last lines; one that is held shows from where it
/// is held, as far as there is something to show.
pub proof fn where_the_view_stands(m: ViewModel, total: int, h: int)
    requires
        0 <= h,
        0 <= total,
        0 <= m.scroll_top,
    ensures
        m.follow && total > h ==> m.top(total, h) == total - h,
        total <= h ==> m.top(total, h) == 0,
        !m.follow && total > h && m.scroll_top <= total - h ==> m.top(total, h) == m.scroll_top,
        !m.follow && total > h && m.scroll_top > total - h ==> m.top(total, h) == total - h,
{
}

/// The rows of some lines are those of the first of them and then of the rest.
pub proof fn rows_follow_their_lines(
    m: ViewModel,
    a: int,
    b: int,
    c: int,
    live: Seq<LineView>,
    thinking: LineView,
    w: u16,
)
    requires
        a <= b <= c,
    ensures
        m.rows_between(a, c, live, thinking, w) == m.rows_between(a, b, live, thinking, w)
            + m.rows_between(b, c, live, thinking, w),
        m.sources_between(a, c, live, thinking, w) == m.sources_between(a, b, live, thinking, w)
            + m.sources_between(b, c, live, thinking, w),
        m.rows_between(a, b, live, thinking, w).len() == m.sources_between(
            a,
            b,
            live,
            thinking,
            w,
        ).len(),
        forall|k: int|
            0 <= k < m.sources_between(a, b, live, thinking, w).len() ==> a
                <= #[trigger] m.sources_between(a, b, live, thinking, w)[k] < b,
    decreases c - a, c - b,
{
    let rows = m.rows_between(a, b, live, thinking, w);
    let sources = m.sources_between(a, b, live, thinking, w);
    if b == c {
        if a < b {
            rows_follow_their_lines(m, a, b - 1, b - 1, live, thinking, w);
        }
        assert(rows + m.rows_between(b, c, live, thinking, w) =~= rows);
        assert(sources + m.sources_between(b, c, live, thinking, w) =~= sources);
    } else {
        rows_follow_their_lines(m, a, b, c - 1, live, thinking, w);
        let r = m.rows_at(c - 1, live, thinking, w);
        assert(m.rows_between(a, c, live, thinking, w) =~= rows + m.rows_between(
            b,
            c,
            live,
            thinking,
            w,
        ));
        assert(m.sources_between(a, c, live, thinking, w) =~= sources + m.sources_between(
            b,
            c,
            live,
            thinking,
            w,
        ));
    }
}

/// Line by line: the transcript first, a divider stretched to the width; behind it
/// what streams, or what shows below.
pub proof fn which_line_stands_where(
    m: ViewModel,
    i: int,
    live: Seq<LineView>,
    thinking: LineView,
    w: u16,
)
    requires
        0 <= i,
    ensures
        ({
            let n = m.transcript.len();
            &&& i < n && !crate::fit::is_divider(m.transcript[i]) ==> m.line_at(
                i,
                live,
                thinking,
                w,
            ) == m.transcript[i]
            &&& i < n && crate::fit::is_divider(m.transcript[i]) ==> m.line_at(
                i,
                live,
                thinking,
                w,
            ) == crate::fit::stretched(m.transcript[i], w as nat)
            &&& i >= n && quiet(m) ==> m.line_at(i, live, thinking, w) == live[i - n]
            &&& i > n && !quiet(m) ==> m.line_at(i, live, thinking, w) == m.current_parsed[i - n]
            &&& i == n && !quiet(m) && (m.current_reasoning.len() == 0 || m.reasoning_elapsed
                is Some) ==> m.line_at(i, live, thinking, w) == m.current_parsed[0]
            &&& i == n && m.current_reasoning.len() > 0 && m.reasoning_elapsed is None
                ==> m.line_at(i, live, thinking, w) == thinking
        }),
{
}

// ---- what is exported -------------------------------------------------------
/// The exported text is the text of the lines with a newline between every two.
pub proof fn the_export_has_every_line(v: Seq<LineView>, n: nat)
    requires
        1 <= n <= v.len(),
    ensures
        transcript_text(v, n) == crate::words::joined(
            v.take(n as int).map_values(|l: LineView| told(l.spans)),
            '\n',
        ),
    decreases n,
{
    let f = |l: LineView| told(l.spans);
    let texts = v.take(n as int).map_values(f);
    lemma_told_is_the_text(v[n - 1].spans);
    assert(texts.last() == told(v[n - 1].spans));
    if n == 1 {
        assert(texts.len() == 1);
        assert(texts[0] == told(v[0].spans));
    } else {
        the_export_has_every_line(v, (n - 1) as nat);
        assert(texts.drop_last() =~= v.take(n - 1).map_values(f));
        assert(transcript_text(v, n) =~= transcript_text(v, (n - 1) as nat).push('\n') + line_text(
            v[n - 1],
        ));
    }
}

proof fn lemma_told_is_the_text(s: Seq<SpanView>)
    ensures
        told(s) == crate::fit::spans_text(s),
    decreases s.len(),
{
    if s.len() > 0 {
        lemma_told_is_the_text(s.drop_last());
    }
}

} // verus!
