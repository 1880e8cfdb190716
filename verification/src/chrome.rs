//! Everything around the transcript: the status line, the composer, the popups,
//! the permission question, the menu overlay, and the text under a selection.
use crate::complete::MenuKind;
use crate::fit::{cell_width, cells, line_texts, row_count, wrapped_rows, WIDEST};
use crate::markdown::{char_count, char_count_of};
use crate::menu::{
    age,
    ago,
    row_views,
    FieldKind,
    KeySource,
    MenuPage,
    MenuState,
    MenuView,
    PageView,
    ProjectView,
    Row,
    RowView,
    SessionView,
};
use crate::paths::{is_same_place, place_name, same_place};
use crate::screen::{least, most, Area};
use crate::styled::{
    append_lines,
    append_spans,
    blank_line,
    line,
    line_views,
    raw,
    span,
    span_views,
    styled_line,
    Color,
    Line,
    LineView,
    Span,
    SpanView,
    Style,
};
use crate::text::{
    at_byte,
    byte_len,
    byte_len_of,
    char_at,
    char_index,
    char_text,
    chars_of,
    decimal,
    lemma_char_at,
    lemma_char_at_order,
    lines,
    lines_of,
    number,
    pad_left,
    pad_right,
    push_padded_left,
    push_padded_right,
    push_repeat,
    repeat,
    same,
    slice_of,
    strings,
    text_of,
    text_option,
    texts,
    trim,
    trim_end,
    trim_end_of,
    trim_of,
};
use crate::theme::{loading_phase, Palette, DEFAULT_LOGO};
use crate::view::{
    elapsed_since,
    since,
    u16_capped,
    AgentMode,
    AskView,
    ChoiceView,
    CompletionMenu,
    PasteMarker,
    PendingAsk,
    Selection,
    ViewModel,
    ViewState,
};
use vstd::prelude::*;
use vstd::string::*;

verus! {

// ---- small texts ------------------------------------------------------------
/// `"1 session"` or `"4 sessions"`.
pub open spec fn counted(n: nat, word: Seq<char>) -> Seq<char> {
    if n == 1 {
        "1 "@ + word
    } else {
        decimal(n) + " "@ + word + "s"@
    }
}

/// `"1 session"` or `"4 sessions"`.
pub fn plural(n: usize, word: &str) -> (r: String)
    ensures
        r@ == counted(n as nat, word@),
{
    if n == 1 {
        "1 ".to_owned().concat(word)
    } else {
        number(n as u64).concat(" ").concat(word).concat("s")
    }
}

/// The cells that the characters of a text take, each measured by itself.
pub open spec fn cell_sum(s: Seq<char>) -> nat
    decreases s.len(),
{
    if s.len() == 0 {
        0
    } else {
        cells(seq![s[0]]) + cell_sum(s.skip(1))
    }
}

/// How many characters at the start of a text have room in so many cells.
pub open spec fn fitting(s: Seq<char>, room: int) -> nat
    decreases s.len(),
{
    if s.len() == 0 || cells(seq![s[0]]) > room {
        0
    } else {
        1 + fitting(s.skip(1), room - cells(seq![s[0]]))
    }
}

/// A text in `max` cells: one that takes more is cut between two characters and
/// ends in an ellipsis, which takes the last cell.
pub open spec fn shortened(s: Seq<char>, max: nat) -> Seq<char> {
    if cells(s) <= max {
        s
    } else {
        s.take(fitting(s, most(max - 1, 0)) as int).push('…')
    }
}

proof fn lemma_fitting(s: Seq<char>, room: int)
    requires
        room >= 0,
    ensures
        fitting(s, room) <= s.len(),
        cell_sum(s.take(fitting(s, room) as int)) <= room,
    decreases s.len(),
{
    if s.len() == 0 || cells(seq![s[0]]) > room {
        assert(s.take(0).len() == 0);
    } else {
        let rest = room - cells(seq![s[0]]);
        let k = fitting(s.skip(1), rest);
        lemma_fitting(s.skip(1), rest);
        assert(s.take((1 + k) as int).skip(1) =~= s.skip(1).take(k as int));
    }
}

/// A text in `max` cells: one that takes more is cut between two characters and
/// ends in an ellipsis, which takes the last cell.
pub fn ellipsize(s: &str, max: usize) -> (r: String)
    ensures
        r@ == shortened(s@, max as nat),
{
    if cell_width(s) <= max {
        return s.to_owned();
    }
    let c: Vec<char> = chars_of(s);
    let mut room: usize = max.saturating_sub(1);
    let ghost whole = fitting(s@, room as int);
    let mut keep: Vec<char> = Vec::new();
    let mut i: usize = 0;
    assert(s@.skip(0) =~= s@);
    assert(keep@ =~= s@.take(0));
    while i < c.len()
        invariant
            c@ == s@,
            i <= c@.len(),
            keep@ == s@.take(i as int),
            whole == i + fitting(s@.skip(i as int), room as int),
        ensures
            keep@ == s@.take(whole as int),
        decreases c@.len() - i,
    {
        let one: String = char_text(c[i]);
        let w: usize = cell_width(one.as_str());
        assert(one@ =~= seq![s@.skip(i as int)[0]]);
        if w > room {
            break;
        }
        room -= w;
        keep.push(c[i]);
        assert(keep@ =~= s@.take(i + 1));
        assert(s@.skip(i as int).skip(1) =~= s@.skip(i + 1));
        i += 1;
    }
    keep.push('…');
    text_of(keep.as_slice())
}

/// A text that fits is left as it is; of any other, what stands before the
/// ellipsis leaves a cell for it.
pub proof fn shortened_texts_are_short(s: Seq<char>, max: nat)
    requires
        max > 0,
    ensures
        cells(s) <= max ==> shortened(s, max) == s,
        cells(s) > max ==> shortened(s, max).len() > 0 && shortened(s, max).last() == '…'
            && cell_sum(shortened(s, max).drop_last()) <= max - 1,
{
    lemma_fitting(s, max - 1);
    let k = fitting(s, max - 1) as int;
    assert(s.take(k).push('…').drop_last() =~= s.take(k));
}

fn padded_right(s: &str, n: usize) -> (r: String)
    ensures
        r@ == pad_right(s@, n as nat),
{
    let c: Vec<char> = chars_of(s);
    let mut v: Vec<char> = Vec::new();
    push_padded_right(&mut v, c.as_slice(), n);
    assert(v@ =~= pad_right(s@, n as nat));
    text_of(v.as_slice())
}

fn padded_left(s: &str, n: usize) -> (r: String)
    ensures
        r@ == pad_left(s@, n as nat),
{
    let c: Vec<char> = chars_of(s);
    let mut v: Vec<char> = Vec::new();
    push_padded_left(&mut v, c.as_slice(), n);
    assert(v@ =~= pad_left(s@, n as nat));
    text_of(v.as_slice())
}

/// The name of a mode.
pub open spec fn mode_label(m: AgentMode) -> Seq<char> {
    match m {
        AgentMode::Default => "default"@,
        AgentMode::AcceptEdits => "accept-edits"@,
        AgentMode::Plan => "plan"@,
        AgentMode::Ask => "ask"@,
        AgentMode::Auto => "auto"@,
    }
}

/// The name of a mode.
pub fn mode_name(m: AgentMode) -> (r: &'static str)
    ensures
        r@ == mode_label(m),
{
    match m {
        AgentMode::Default => "default",
        AgentMode::AcceptEdits => "accept-edits",
        AgentMode::Plan => "plan",
        AgentMode::Ask => "ask",
        AgentMode::Auto => "auto",
    }
}

/// The colour of a mode: the more it lets through, the louder.
pub open spec fn mode_look(m: AgentMode, p: Palette) -> Style {
    match m {
        AgentMode::Default => p.chrome(),
        AgentMode::AcceptEdits => p.painted(Color::Green),
        AgentMode::Plan => p.code(),
        AgentMode::Ask => p.painted(Color::Yellow),
        AgentMode::Auto => p.painted(Color::Red),
    }
}

/// The colour of a mode.
pub fn mode_style(m: AgentMode, p: Palette) -> (s: Style)
    ensures
        s == mode_look(m, p),
{
    match m {
        AgentMode::Default => p.chrome(),
        AgentMode::AcceptEdits => p.semantic(Color::Green),
        AgentMode::Plan => p.code(),
        AgentMode::Ask => p.semantic(Color::Yellow),
        AgentMode::Auto => p.semantic(Color::Red),
    }
}

// ---- motion -----------------------------------------------------------------
/// Nanoseconds in a second.
pub const SECOND: u64 = 1_000_000_000;

/// Nanoseconds in a millisecond.
pub const MILLISECOND: u64 = 1_000_000;

/// Whole seconds since a start.
pub open spec fn seconds_since(start: Option<u64>, now: u64) -> u64 {
    since(start, now) / SECOND
}

/// Whole seconds since a turn began, 0 while idle.
pub fn elapsed_secs(now: u64, started: Option<u64>) -> (n: u64)
    ensures
        n == seconds_since(started, now),
{
    elapsed_since(started, now) / SECOND
}

/// The phase of the mark: one in eight every 45 milliseconds.
pub open spec fn spinner_phase(start: Option<u64>, now: u64) -> int {
    (since(start, now) / MILLISECOND / 45) as int % 8
}

/// The shape of the mark in a phase.
pub open spec fn spinner_glyph(phase: int) -> Seq<char> {
    if phase == 0 || phase == 4 {
        "✻"@
    } else if phase == 2 || phase == 6 {
        "✼"@
    } else {
        "✽"@
    }
}

/// The turning mark; it stands still where motion is off.
pub open spec fn spinner(start: Option<u64>, now: u64, motion: bool, p: Palette) -> SpanView {
    if motion {
        span(
            spinner_glyph(spinner_phase(start, now)),
            p.painted(loading_phase(spinner_phase(start, now))),
        )
    } else {
        span(DEFAULT_LOGO@, p.accent())
    }
}

/// The turning mark; it stands still where motion is off.
pub fn logo_spinner_span(now: u64, started: Option<u64>, motion: bool, p: Palette) -> (s: Span)
    ensures
        s@ == spinner(started, now, motion, p),
{
    if !motion {
        return Span::styled(DEFAULT_LOGO, p.accent());
    }
    let phase: u64 = elapsed_since(started, now) / MILLISECOND / 45 % 8;
    let glyph: &'static str = if phase == 0 || phase == 4 {
        "✻"
    } else if phase == 2 || phase == 6 {
        "✼"
    } else {
        "✽"
    };
    Span::styled(glyph, p.loading(phase as usize))
}

/// The label of the thinking row.
pub open spec fn thinking_label(start: Option<u64>, now: u64) -> Seq<char> {
    "Marathoning · "@ + decimal(seconds_since(start, now) as nat) + "s"@
}

/// The label of the thinking row.
pub fn marathoning_label(now: u64, started: Option<u64>) -> (r: String)
    ensures
        r@ == thinking_label(started, now),
{
    "Marathoning · ".to_owned().concat(number(elapsed_secs(now, started)).as_str()).concat("s")
}

/// The thinking row without motion.
pub fn still_thinking_line(now: u64, started: Option<u64>, p: Palette) -> (l: Line)
    ensures
        l@ == line(seq![span(thinking_label(started, now), p.chrome())]),
{
    let mut spans: Vec<Span> = Vec::new();
    spans.push(Span::styled(marathoning_label(now, started).as_str(), p.chrome()));
    assert(span_views(spans@) =~= seq![span(thinking_label(started, now), p.chrome())]);
    Line::new(spans)
}

impl ViewModel {
    /// When the thinking that shows began.
    pub open spec fn thinking_since(self) -> Option<u64> {
        if self.reasoning_started is Some {
            self.reasoning_started
        } else {
            self.turn_started
        }
    }

    /// The row of a running tool: the mark, the tool's name and the time.
    pub open spec fn running_line(self, now: u64, motion: bool, p: Palette) -> LineView {
        let tool = match self.running_tool {
            Some(t) => t,
            None => "tool"@,
        };
        let secs = seconds_since(self.turn_started, now);
        let label = if secs > 0 {
            tool + "… "@ + decimal(secs as nat) + "s"@
        } else {
            tool + "…"@
        };
        line(
            seq![
                raw("  "@),
                spinner(self.turn_started, now, motion, p),
                span(" "@ + label, p.chrome()),
            ],
        )
    }

    /// Where the held view stands: at the top, or above so many lines; nothing
    /// while it follows.
    pub open spec fn position_label(self) -> Seq<char> {
        if self.follow {
            Seq::empty()
        } else {
            let total = self.line_count(
                if self.busy {
                    1
                } else {
                    0
                },
            );
            let h = most(self.area_height, 1);
            let top = least(self.scroll_top, most(total - h, 0));
            if top == 0 {
                "↑ top"@
            } else {
                "↑ "@ + decimal(most(total - (top + h), 0) as nat) + " below"@
            }
        }
    }

    /// The hint at the right of the status line: a fresh notice, else where the
    /// held view lies, else the key that stops the turn or clears the draft.
    pub open spec fn hint(self, now: u64, p: Palette) -> Seq<SpanView> {
        let fresh = match self.copy_notice {
            Some((text, at)) => since(Some(at), now) < 3 * SECOND,
            None => false,
        };
        let notice = match self.copy_notice {
            Some((text, at)) => text,
            None => Seq::empty(),
        };
        if fresh {
            seq![span(notice, p.accent())]
        } else if self.position_label().len() > 0 {
            seq![span(self.position_label(), p.body())]
        } else if self.busy {
            seq![span("Esc "@, p.code()), span("interrupt"@, p.body())]
        } else if self.composer.len() > 0 {
            seq![span("Esc "@, p.code()), span("clear"@, p.body())]
        } else {
            Seq::empty()
        }
    }
}

/// How the streaming rate shows.
#[derive(Debug, Clone, Copy, PartialEq, Eq, Structural)]
pub enum StreamRate {
    Hidden,
    /// Only reasoning is streaming.
    Reasoning,
    /// Less than a second of answer text.
    WarmingUp,
    /// So many characters in so many nanoseconds.
    Measured { chars: u64, nanos: u64 },
}

impl ViewModel {
    /// How the streaming rate shows: four characters to a token over the time
    /// that answer text has streamed, once that is a second.
    pub open spec fn rate(self, now: u64) -> StreamRate {
        if !self.busy {
            StreamRate::Hidden
        } else if self.current_text.len() == 0 {
            if self.current_reasoning.len() > 0 {
                StreamRate::Reasoning
            } else {
                StreamRate::Hidden
            }
        } else if self.stream_started is None {
            StreamRate::Hidden
        } else if since(self.stream_started, now) < SECOND {
            StreamRate::WarmingUp
        } else {
            StreamRate::Measured {
                chars: self.stream_chars,
                nanos: since(self.stream_started, now),
            }
        }
    }
}

/// The span of the streaming rate, a measured one already written out.
pub open spec fn rate_spans(rate: StreamRate, label: Seq<char>, p: Palette) -> Seq<SpanView> {
    match rate {
        StreamRate::Hidden => Seq::empty(),
        StreamRate::Reasoning => seq![span(" ↑ reasoning"@, p.chrome())],
        StreamRate::WarmingUp => seq![span(" ↑ streaming"@, p.chrome())],
        StreamRate::Measured { .. } => seq![span(" ↑ "@ + label + " tok/s"@, p.accent())],
    }
}

fn rate_spans_of(rate: StreamRate, label: &str, p: Palette) -> (out: Vec<Span>)
    ensures
        span_views(out@) == rate_spans(rate, label@, p),
{
    let mut out: Vec<Span> = Vec::new();
    match rate {
        StreamRate::Hidden => {},
        StreamRate::Reasoning => {
            out.push(Span::styled(" ↑ reasoning", p.chrome()));
        },
        StreamRate::WarmingUp => {
            out.push(Span::styled(" ↑ streaming", p.chrome()));
        },
        StreamRate::Measured { .. } => {
            let text: String = " ↑ ".to_owned().concat(label).concat(" tok/s");
            out.push(Span::styled(text.as_str(), p.accent()));
        },
    }
    assert(span_views(out@) =~= rate_spans(rate, label@, p));
    out
}

/// The numbers of the status line, written out.
#[derive(Debug, PartialEq, Eq)]
pub struct StatusLabels {
    /// The context size.
    pub tokens: String,
    /// The cached share, where it is known.
    pub cached: String,
    /// The streaming rate in tokens a second.
    pub rate: String,
}

impl ViewModel {
    /// What is going on: the mark and the time, while a turn runs.
    pub open spec fn activity(self, now: u64, motion: bool, p: Palette) -> Seq<SpanView> {
        let secs = seconds_since(self.turn_started, now);
        if self.busy {
            seq![
                spinner(self.turn_started, now, motion, p),
                raw(" "@),
                span(
                    if secs >= 1 {
                        decimal(secs as nat) + "s"@
                    } else {
                        "working"@
                    },
                    p.accent(),
                ),
                span(" · "@, p.chrome()),
            ]
        } else {
            Seq::empty()
        }
    }

    /// The size of the context, once there is one, and how much of it was cached.
    pub open spec fn context(self, tokens: Seq<char>, cached: Seq<char>, p: Palette) -> Seq<SpanView> {
        if self.context_tokens is Some {
            seq![span(" · ctx: "@, p.chrome())] + (if self.context_tokens_estimated {
                seq![span("~"@, p.chrome())]
            } else {
                Seq::empty()
            }) + seq![span(tokens, p.body()), span(" tok"@, p.chrome())] + (
            if self.cache_hit_rate is Some {
                seq![span(" · "@ + cached + " cached"@, p.chrome())]
            } else {
                Seq::empty()
            })
        } else {
            Seq::empty()
        }
    }

    /// The left side of the status line: what is going on, where, in which mode,
    /// and how large the context is.
    pub open spec fn status(
        self,
        now: u64,
        motion: bool,
        tokens: Seq<char>,
        cached: Seq<char>,
        rate: Seq<char>,
        p: Palette,
    ) -> Seq<SpanView> {
        let place = seq![
            span(self.location, p.body()),
            span(" · "@, p.chrome()),
            span(mode_label(self.mode), mode_look(self.mode, p)),
        ];
        seq![raw(" "@)] + self.activity(now, motion, p) + place + self.context(tokens, cached, p)
            + rate_spans(self.rate(now), rate, p)
    }
}

/// Left content, room, and right content that ends at the width; one space of
/// room where there is no more.
pub open spec fn spread(left: Seq<SpanView>, right: Seq<SpanView>, width: nat) -> LineView {
    let room = most(width - char_count(left) - char_count(right), 1);
    line(left + seq![raw(repeat(' ', room as nat))] + right)
}

/// Pack `left` to the left and `right` to the right of a line.
pub fn right_align(left: Vec<Span>, right: Vec<Span>, width: u16) -> (l: Line)
    ensures
        l@ == spread(span_views(left@), span_views(right@), width as nat),
{
    let ghost lv = span_views(left@);
    let ghost rv = span_views(right@);
    let a: usize = char_count_of(left.as_slice());
    let b: usize = char_count_of(right.as_slice());
    let w: usize = width as usize;
    let gap: usize = w.saturating_sub(a).saturating_sub(b);
    let room: usize = if gap < 1 {
        1
    } else {
        gap
    };
    assert(room == most(w - char_count(lv) - char_count(rv), 1));
    let mut v: Vec<char> = Vec::new();
    push_repeat(&mut v, ' ', room);
    assert(v@ =~= repeat(' ', room as nat));
    let mut spans: Vec<Span> = left;
    let s: Span = Span::of(v.as_slice(), Style::plain());
    let ghost sv = s@;
    spans.push(s);
    assert(span_views(spans@) =~= lv.push(sv));
    append_spans(&mut spans, right);
    assert(span_views(spans@) =~= lv + seq![sv] + rv);
    Line::new(spans)
}

/// The hints at the right end where the width says, as far as there is room.
pub proof fn right_side_ends_at_the_width(left: Seq<SpanView>, right: Seq<SpanView>, width: nat)
    requires
        char_count(left) + char_count(right) < width,
    ensures
        char_count(spread(left, right, width).spans) == width,
{
    let room = (width - char_count(left) - char_count(right)) as nat;
    let gap = seq![raw(repeat(' ', room))];
    lemma_char_count_add(left, gap);
    lemma_char_count_add(left + gap, right);
    assert(char_count(gap) == room) by {
        assert(gap.drop_last() =~= Seq::<SpanView>::empty());
        assert(char_count(gap.drop_last()) == 0);
        assert(gap.last().content.len() == room);
    }
}

proof fn lemma_char_count_add(a: Seq<SpanView>, b: Seq<SpanView>)
    ensures
        char_count(a + b) == char_count(a) + char_count(b),
    decreases b.len(),
{
    if b.len() == 0 {
        assert(a + b =~= a);
    } else {
        assert((a + b).drop_last() =~= a + b.drop_last());
        lemma_char_count_add(a, b.drop_last());
    }
}

/// Almost the whole terminal: wide screens keep one column on each side.
pub fn content_area(area: Area) -> (r: Area)
    ensures
        r == (if area.width <= 100 {
            area
        } else {
            Area {
                x: crate::view::u16_capped(area.x + 1) as u16,
                width: (area.width - 2) as u16,
                ..area
            }
        }),
{
    if area.width <= 100 {
        area
    } else {
        Area { x: area.x.saturating_add(1), width: area.width - 2, ..area }
    }
}

impl ViewState {
    /// When the thinking that shows began.
    pub fn thinking_started(&self) -> (r: Option<u64>)
        ensures
            r == self@.thinking_since(),
    {
        if self.reasoning_started.is_some() {
            self.reasoning_started
        } else {
            self.turn_started
        }
    }

    /// The row of a running tool.
    pub fn tool_running_line(&self, now: u64, motion: bool, p: Palette) -> (l: Line)
        ensures
            l@ == self@.running_line(now, motion, p),
    {
        let tool: String = match &self.running_tool {
            Some(t) => t.clone(),
            None => "tool".to_owned(),
        };
        let secs: u64 = elapsed_secs(now, self.turn_started);
        let label: String = if secs > 0 {
            tool.concat("… ").concat(number(secs).as_str()).concat("s")
        } else {
            tool.concat("…")
        };
        let mut spans: Vec<Span> = Vec::new();
        spans.push(Span::raw("  "));
        spans.push(logo_spinner_span(now, self.turn_started, motion, p));
        spans.push(Span::styled(" ".to_owned().concat(label.as_str()).as_str(), p.chrome()));
        assert(span_views(spans@) =~= self@.running_line(now, motion, p).spans);
        Line::new(spans)
    }

    /// Where the held view stands: at the top, or above so many lines; nothing
    /// while it follows.
    pub fn scroll_indicator(&self) -> (r: String)
        ensures
            r@ == self@.position_label(),
    {
        if self.follow {
            let none: String = String::new();
            assert(none@ =~= Seq::<char>::empty());
            return none;
        }
        let live: usize = if self.busy {
            1
        } else {
            0
        };
        let total: usize = self.shown_line_count(live);
        let h: usize = if self.area_height < 1 {
            1
        } else {
            self.area_height
        };
        let last: usize = total.saturating_sub(h);
        let top: usize = if self.scroll_top < last {
            self.scroll_top
        } else {
            last
        };
        if top == 0 {
            "↑ top".to_owned()
        } else {
            let below: usize = total.saturating_sub(top).saturating_sub(h);
            "↑ ".to_owned().concat(number(below as u64).as_str()).concat(" below")
        }
    }

    /// The hint at the right of the status line.
    pub fn right_hint(&self, now: u64, p: Palette) -> (out: Vec<Span>)
        ensures
            span_views(out@) == self@.hint(now, p),
    {
        let mut out: Vec<Span> = Vec::new();
        match &self.copy_notice {
            Some(n) => {
                if elapsed_since(Some(n.1), now) < 3 * SECOND {
                    out.push(Span::styled(n.0.as_str(), p.accent()));
                    assert(span_views(out@) =~= self@.hint(now, p));
                    return out;
                }
            },
            None => {},
        }
        let at: String = self.scroll_indicator();
        if !at.as_str().is_empty() {
            out.push(Span::styled(at.as_str(), p.body()));
        } else if self.busy {
            out.push(Span::styled("Esc ", p.code()));
            out.push(Span::styled("interrupt", p.body()));
        } else if !self.composer.as_str().is_empty() {
            out.push(Span::styled("Esc ", p.code()));
            out.push(Span::styled("clear", p.body()));
        }
        assert(span_views(out@) =~= self@.hint(now, p));
        out
    }

    /// How the streaming rate shows.
    pub fn stream_rate(&self, now: u64) -> (r: StreamRate)
        ensures
            r == self@.rate(now),
    {
        if !self.busy {
            StreamRate::Hidden
        } else if self.current_text.as_str().is_empty() {
            if !self.current_reasoning.as_str().is_empty() {
                StreamRate::Reasoning
            } else {
                StreamRate::Hidden
            }
        } else if self.stream_started.is_none() {
            StreamRate::Hidden
        } else {
            let nanos: u64 = elapsed_since(self.stream_started, now);
            if nanos < SECOND {
                StreamRate::WarmingUp
            } else {
                StreamRate::Measured { chars: self.stream_chars, nanos }
            }
        }
    }

    fn activity_spans(&self, now: u64, motion: bool, p: Palette) -> (out: Vec<Span>)
        ensures
            span_views(out@) == self@.activity(now, motion, p),
    {
        let mut out: Vec<Span> = Vec::new();
        if self.busy {
            let secs: u64 = elapsed_secs(now, self.turn_started);
            let activity: String = if secs >= 1 {
                number(secs).concat("s")
            } else {
                "working".to_owned()
            };
            out.push(logo_spinner_span(now, self.turn_started, motion, p));
            out.push(Span::raw(" "));
            out.push(Span::styled(activity.as_str(), p.accent()));
            out.push(Span::styled(" · ", p.chrome()));
        }
        assert(span_views(out@) =~= self@.activity(now, motion, p));
        out
    }

    fn context_spans(&self, labels: &StatusLabels, p: Palette) -> (out: Vec<Span>)
        ensures
            span_views(out@) == self@.context(labels.tokens@, labels.cached@, p),
    {
        let mut out: Vec<Span> = Vec::new();
        if self.context_tokens.is_some() {
            out.push(Span::styled(" · ctx: ", p.chrome()));
            if self.context_tokens_estimated {
                out.push(Span::styled("~", p.chrome()));
            }
            out.push(Span::styled(labels.tokens.as_str(), p.body()));
            out.push(Span::styled(" tok", p.chrome()));
            if self.cache_hit_rate.is_some() {
                let text: String = " · ".to_owned().concat(labels.cached.as_str()).concat(
                    " cached",
                );
                out.push(Span::styled(text.as_str(), p.chrome()));
            }
        }
        assert(span_views(out@) =~= self@.context(labels.tokens@, labels.cached@, p));
        out
    }

    /// The left side of the status line.
    pub fn status_spans(&self, now: u64, motion: bool, labels: &StatusLabels, p: Palette) -> (out:
        Vec<Span>)
        ensures
            span_views(out@) == self@.status(
                now,
                motion,
                labels.tokens@,
                labels.cached@,
                labels.rate@,
                p,
            ),
    {
        let mut out: Vec<Span> = Vec::new();
        out.push(Span::raw(" "));
        assert(span_views(out@) =~= seq![raw(" "@)]);
        append_spans(&mut out, self.activity_spans(now, motion, p));
        let mut place: Vec<Span> = Vec::new();
        place.push(Span::styled(self.location.as_str(), p.body()));
        place.push(Span::styled(" · ", p.chrome()));
        place.push(Span::styled(mode_name(self.mode), mode_style(self.mode, p)));
        assert(span_views(place@) =~= seq![
            span(self@.location, p.body()),
            span(" · "@, p.chrome()),
            span(mode_label(self@.mode), mode_look(self@.mode, p)),
        ]);
        append_spans(&mut out, place);
        append_spans(&mut out, self.context_spans(labels, p));
        append_spans(&mut out, rate_spans_of(self.stream_rate(now), labels.rate.as_str(), p));
        out
    }

    /// The model under the composer.
    pub fn model_footer(&self, p: Palette) -> (l: Line)
        ensures
            l@ == line(seq![span(" "@ + self@.model_name, p.body())]),
    {
        let mut spans: Vec<Span> = Vec::new();
        let text: String = " ".to_owned().concat(self.model_name.as_str());
        spans.push(Span::styled(text.as_str(), p.body()));
        assert(span_views(spans@) =~= seq![span(" "@ + self@.model_name, p.body())]);
        Line::new(spans)
    }
}

// ---- the composer -----------------------------------------------------------
/// The marker covers whole characters of the text, behind byte `offset`.
pub open spec fn marks(m: PasteMarker, s: Seq<char>, offset: int) -> bool {
    m.start >= offset && m.end > m.start && m.end <= byte_len(s) && char_at(s, m.start as int)
        is Some && char_at(s, m.end as int) is Some
}

/// The text of a multi-line paste.
pub open spec fn paste_label(lines: nat) -> Seq<char> {
    "[pasted "@ + decimal(lines) + " lines]"@
}

/// What the composer shows from byte `offset` on, markers from `i` on: each
/// marked part as its label, the rest as it is. Markers that do not fit the
/// text are ignored.
pub open spec fn composed(s: Seq<char>, markers: Seq<PasteMarker>, i: int, offset: int, p: Palette) -> Seq<
    SpanView,
>
    decreases markers.len() - i,
{
    if i < 0 || i >= markers.len() {
        if offset < byte_len(s) {
            seq![raw(s.skip(char_at(s, offset)->0))]
        } else {
            Seq::empty()
        }
    } else {
        let m = markers[i];
        if marks(m, s, offset) {
            let lead = if m.start > offset {
                seq![raw(s.subrange(char_at(s, offset)->0, char_at(s, m.start as int)->0))]
            } else {
                Seq::empty()
            };
            lead + seq![span(paste_label(m.lines as nat), p.chrome())] + composed(
                s,
                markers,
                i + 1,
                m.end as int,
                p,
            )
        } else {
            composed(s, markers, i + 1, offset, p)
        }
    }
}

/// Where a marker stands in characters, if it fits the text.
fn marked(s: &str, chars: &Vec<char>, total: usize, m: PasteMarker, offset: usize) -> (r: Option<
    (usize, usize),
>)
    requires
        chars@ == s@,
        total == byte_len(s@),
    ensures
        match r {
            Some((a, b)) => marks(m, s@, offset as int) && char_at(s@, m.start as int) == Some(
                a as int,
            ) && char_at(s@, m.end as int) == Some(b as int) && at_byte(s@, a as int, m.start as int)
                && at_byte(s@, b as int, m.end as int),
            None => !marks(m, s@, offset as int),
        },
{
    if m.start < offset || m.end <= m.start || m.end > total {
        return None;
    }
    match char_index(s, chars.as_slice(), m.start) {
        Some(a) => match char_index(s, chars.as_slice(), m.end) {
            Some(b) => {
                proof {
                    lemma_char_at(s@, a as int, m.start as int);
                    lemma_char_at(s@, b as int, m.end as int);
                }
                Some((a, b))
            },
            None => None,
        },
        None => None,
    }
}

impl ViewState {
    /// What the composer shows: its text, each multi-line paste as one label.
    pub fn composer_content_spans(&self, p: Palette) -> (out: Vec<Span>)
        ensures
            span_views(out@) == composed(self@.composer, self@.paste_markers, 0, 0, p),
    {
        let s: &str = self.composer.as_str();
        let chars: Vec<char> = chars_of(s);
        let total: usize = byte_len_of(s);
        let ghost want = composed(s@, self.paste_markers@, 0, 0, p);
        let mut out: Vec<Span> = Vec::new();
        let mut offset: usize = 0;
        let mut from: usize = 0;
        let mut i: usize = 0;
        assert(s@.take(0) =~= Seq::<char>::empty());
        assert(span_views(out@) + want =~= want);
        while i < self.paste_markers.len()
            invariant
                i <= self.paste_markers@.len(),
                s@ == self.composer@,
                chars@ == s@,
                total == byte_len(s@),
                want == composed(s@, self.paste_markers@, 0, 0, p),
                at_byte(s@, from as int, offset as int),
                span_views(out@) + composed(
                    s@,
                    self.paste_markers@,
                    i as int,
                    offset as int,
                    p,
                ) == want,
            decreases self.paste_markers@.len() - i,
        {
            let m: PasteMarker = self.paste_markers[i];
            let ghost before = span_views(out@);
            match marked(s, &chars, total, m, offset) {
                Some((a, b)) => {
                    let ghost rest = composed(s@, self.paste_markers@, i + 1, m.end as int, p);
                    proof {
                        lemma_char_at(s@, from as int, offset as int);
                    }
                    let ghost mut lead: Seq<SpanView> = Seq::empty();
                    if m.start > offset {
                        proof {
                            lemma_char_at_order(
                                s@,
                                from as int,
                                offset as int,
                                a as int,
                                m.start as int,
                            );
                        }
                        let piece: Vec<char> = slice_of(chars.as_slice(), from, a);
                        let one: Span = Span::of(piece.as_slice(), Style::plain());
                        let ghost ov = one@;
                        assert(ov == raw(s@.subrange(from as int, a as int)));
                        out.push(one);
                        assert(span_views(out@) =~= before.push(ov));
                        proof {
                            lead = seq![ov];
                        }
                    }
                    assert(span_views(out@) =~= before + lead);
                    let label: String = "[pasted ".to_owned().concat(
                        number(m.lines as u64).as_str(),
                    ).concat(" lines]");
                    let tag: Span = Span::styled(label.as_str(), p.chrome());
                    let ghost tv = tag@;
                    out.push(tag);
                    assert(span_views(out@) =~= before + lead + seq![tv]);
                    assert(before + (lead + seq![tv] + rest) =~= span_views(out@) + rest);
                    offset = m.end;
                    from = b;
                },
                None => {},
            }
            i += 1;
        }
        if offset < total {
            proof {
                lemma_char_at(s@, from as int, offset as int);
            }
            let piece: Vec<char> = slice_of(chars.as_slice(), from, chars.len());
            assert(piece@ =~= s@.skip(from as int));
            let ghost before = span_views(out@);
            let one: Span = Span::of(piece.as_slice(), Style::plain());
            let ghost ov = one@;
            out.push(one);
            assert(span_views(out@) =~= before + seq![ov]);
        } else {
            assert(span_views(out@) + Seq::<SpanView>::empty() =~= span_views(out@));
        }
        out
    }

    /// The caret: steady for a second behind a keystroke and where motion is
    /// off, else blinking.
    pub fn composer_caret_span(&self, now: u64, motion: bool, p: Palette) -> (s: Span)
        ensures
            s@ == self@.caret(now, motion, p),
    {
        let quiet: u64 = match self.last_input {
            Some(t) => elapsed_since(Some(t), now),
            None => 60 * SECOND,
        };
        if quiet < SECOND || !motion {
            return Span::styled("█", p.accent());
        }
        let ms: u64 = elapsed_since(Some(self.process_started), now) / MILLISECOND;
        if ms / 530 % 2 == 0 {
            Span::styled("█", p.accent())
        } else {
            Span::styled("█", p.chrome())
        }
    }

    /// The line of the composer: the prompt, the text and the caret, or a hint
    /// behind the caret while there is no text.
    pub fn composer_line(&self, now: u64, motion: bool, p: Palette) -> (l: Line)
        ensures
            l@ == self@.composer_row(now, motion, p),
    {
        let mut spans: Vec<Span> = Vec::new();
        spans.push(Span::styled("> ", p.chrome()));
        let ghost lead = span_views(spans@);
        assert(lead =~= seq![span("> "@, p.chrome())]);
        if self.composer.as_str().is_empty() {
            spans.push(self.composer_caret_span(now, motion, p));
            spans.push(Span::styled(" type a prompt", p.accent_dim()));
        } else {
            append_spans(&mut spans, self.composer_content_spans(p));
            let ghost before = span_views(spans@);
            let c: Span = self.composer_caret_span(now, motion, p);
            let ghost cv = c@;
            spans.push(c);
            assert(span_views(spans@) =~= before.push(cv));
        }
        assert(span_views(spans@) =~= self@.composer_row(now, motion, p).spans);
        Line::new(spans)
    }
}

impl ViewModel {
    /// The caret: steady for a second behind a keystroke and where motion is
    /// off, else dim every other 530 milliseconds.
    pub open spec fn caret(self, now: u64, motion: bool, p: Palette) -> SpanView {
        let quiet = match self.last_input {
            Some(t) => since(Some(t), now) as int,
            None => 60 * SECOND,
        };
        let ms = since(Some(self.process_started), now) / MILLISECOND;
        if quiet < SECOND || !motion || ms / 530 % 2 == 0 {
            span("█"@, p.accent())
        } else {
            span("█"@, p.chrome())
        }
    }

    /// The line of the composer.
    pub open spec fn composer_row(self, now: u64, motion: bool, p: Palette) -> LineView {
        let lead = seq![span("> "@, p.chrome())];
        line(
            if self.composer.len() == 0 {
                lead + seq![self.caret(now, motion, p), span(" type a prompt"@, p.accent_dim())]
            } else {
                lead + composed(self.composer, self.paste_markers, 0, 0, p) + seq![
                    self.caret(now, motion, p),
                ]
            },
        )
    }
}

/// Every line of a text as one raw span.
pub open spec fn raw_lines(t: Seq<char>) -> Seq<LineView> {
    lines(t).map_values(|l: Seq<char>| line(seq![raw(l)]))
}

/// The rows that the composer's text takes at a width.
pub open spec fn composer_height(t: Seq<char>, width: u16) -> nat {
    if width == 0 {
        1
    } else {
        wrapped_rows(line_texts(raw_lines("> "@ + t + "█"@)), width)
    }
}

/// The rows that the composer's text takes at a width.
pub fn composer_rows(composer: &str, width: u16) -> (n: usize)
    requires
        width <= WIDEST,
    ensures
        n == composer_height(composer@, width),
{
    if width == 0 {
        return 1;
    }
    let content: String = "> ".to_owned().concat(composer).concat("█");
    let chars: Vec<char> = chars_of(content.as_str());
    let pieces: Vec<Vec<char>> = lines_of(chars.as_slice());
    let ghost want = raw_lines(content@);
    let mut rows: Vec<Line> = Vec::new();
    let mut i: usize = 0;
    while i < pieces.len()
        invariant
            i <= pieces@.len(),
            texts(pieces@) == lines(content@),
            want == raw_lines(content@),
            want.len() == pieces@.len(),
            line_views(rows@) =~= want.take(i as int),
        decreases pieces@.len() - i,
    {
        let ghost before = line_views(rows@);
        assert(lines(content@)[i as int] == texts(pieces@)[i as int]);
        let mut spans: Vec<Span> = Vec::new();
        spans.push(Span::of(pieces[i].as_slice(), Style::plain()));
        assert(span_views(spans@) =~= seq![raw(pieces@[i as int]@)]);
        let l: Line = Line::new(spans);
        let ghost lv = l@;
        assert(lv == want[i as int]);
        rows.push(l);
        i += 1;
        assert(line_views(rows@) =~= before.push(lv));
    }
    assert(want.take(i as int) =~= want);
    row_count(rows.as_slice(), width)
}

/// The room inside a border.
pub open spec fn inside(n: u16) -> u16 {
    if n > 3 {
        (n - 2) as u16
    } else {
        1
    }
}

fn inside_of(n: u16) -> (r: u16)
    ensures
        r == inside(n),
{
    if n > 3 {
        n - 2
    } else {
        1
    }
}

/// The rows of the composer's line that are scrolled off the top of its box, so
/// that the caret at the end shows.
pub open spec fn composer_scroll_of(l: LineView, area: Area) -> int {
    u16_capped(
        most(
            wrapped_rows(line_texts(seq![l]), inside(area.width)) - inside(area.height),
            0,
        ),
    )
}

/// The rows of the composer's line that are scrolled off the top of its box.
pub fn composer_scroll(l: &Line, area: Area) -> (n: u16)
    requires
        area.width <= WIDEST,
    ensures
        n == composer_scroll_of(l@, area),
{
    let mut one: Vec<Line> = Vec::new();
    let c: Line = l.clone();
    let ghost cv = c@;
    one.push(c);
    assert(line_views(one@) =~= seq![cv]);
    let all: usize = row_count(one.as_slice(), inside_of(area.width));
    let over: usize = all.saturating_sub(inside_of(area.height) as usize);
    if over > u16::MAX as usize {
        u16::MAX
    } else {
        over as u16
    }
}

/// The height of the bottom box, borders counted: a permission question has
/// two lines, the composer as many as its text takes, up to six.
pub fn bottom_height(asking: bool, rows: usize) -> (h: u16)
    ensures
        h == (if asking {
            4
        } else {
            least(most(rows as int, 1), 6) + 2
        }),
{
    if asking {
        return 4;
    }
    if rows < 1 {
        3
    } else if rows < 6 {
        rows as u16 + 2
    } else {
        8
    }
}

// ---- popups -----------------------------------------------------------------
/// The rows of a popup that show, so that the selected one is among them.
pub open spec fn popup_start(selected: int, rows: int, count: int) -> int {
    least(most(selected - most(rows - 1, 0), 0), most(count - rows, 0))
}

/// The area of the completion popup above the composer.
pub open spec fn popup_area(count: int, composer: Area) -> Area {
    let h = least(least(count, 8) + 2, most(composer.y as int, 1));
    Area {
        x: composer.x,
        y: most(composer.y - h, 0) as u16,
        width: least(composer.width as int, 40) as u16,
        height: h as u16,
    }
}

/// One candidate of the completion popup.
pub open spec fn candidate_line(text: Seq<char>, selected: bool, p: Palette) -> LineView {
    if selected {
        styled_line("▶ "@ + text, p.menu_selected())
    } else {
        styled_line("  "@ + text, p.code())
    }
}

/// The lines of the completion popup.
pub open spec fn popup_lines(c: ChoiceView, rows: int, p: Palette) -> Seq<LineView> {
    let cands = c.completion.candidates;
    let n = cands.len() as int;
    let selected = least(c.selected, most(n - 1, 0));
    let start = popup_start(selected, rows, n);
    Seq::new(
        most(least(rows, n - start), 0) as nat,
        |k: int| candidate_line(cands[start + k], start + k == selected, p),
    )
}

/// A popup: where it goes, its title and its lines.
#[derive(Debug, PartialEq, Eq)]
pub struct Popup {
    pub area: Area,
    pub title: &'static str,
    pub lines: Vec<Line>,
}

/// The completion popup above the composer; none without candidates.
pub fn completion_popup(menu: &CompletionMenu, composer: Area, p: Palette) -> (r: Option<Popup>)
    ensures
        match r {
            None => menu@.completion.candidates.len() == 0,
            Some(u) => {
                &&& menu@.completion.candidates.len() > 0
                &&& u.area == popup_area(menu@.completion.candidates.len() as int, composer)
                &&& u.title@ == (match menu@.completion.kind {
                    MenuKind::File => "files"@,
                    MenuKind::Slash => "commands"@,
                })
                &&& line_views(u.lines@) == popup_lines(menu@, most(u.area.height - 2, 0), p)
            },
        },
{
    let n: usize = menu.completion.candidates.len();
    let ghost cands = menu@.completion.candidates;
    assert(cands.len() == n);
    if n == 0 {
        return None;
    }
    let count: u16 = if n < 8 {
        n as u16
    } else {
        8
    };
    let max_h: u16 = if composer.y < 1 {
        1
    } else {
        composer.y
    };
    let h: u16 = if count + 2 < max_h {
        count + 2
    } else {
        max_h
    };
    let width: u16 = if composer.width < 40 {
        composer.width
    } else {
        40
    };
    let area = Area { x: composer.x, y: composer.y.saturating_sub(h), width, height: h };
    let title: &'static str = match menu.completion.kind {
        MenuKind::File => "files",
        MenuKind::Slash => "commands",
    };
    let rows: usize = h.saturating_sub(2) as usize;
    let selected: usize = if menu.selected < n - 1 {
        menu.selected
    } else {
        n - 1
    };
    let want_start: usize = selected.saturating_sub(rows.saturating_sub(1));
    let last_start: usize = n.saturating_sub(rows);
    let start: usize = if want_start < last_start {
        want_start
    } else {
        last_start
    };
    let shown: usize = if rows < n - start {
        rows
    } else {
        n - start
    };
    let ghost want = popup_lines(menu@, most(h - 2, 0), p);
    assert(want.len() == shown);
    let mut lines: Vec<Line> = Vec::new();
    let mut k: usize = 0;
    while k < shown
        invariant
            k <= shown,
            start + shown <= n,
            n == menu.completion.candidates@.len(),
            cands == menu@.completion.candidates,
            want == popup_lines(menu@, most(h - 2, 0), p),
            want.len() == shown,
            rows == most(h - 2, 0),
            selected == least(menu@.selected, most(n - 1, 0)),
            start == popup_start(selected as int, rows as int, n as int),
            line_views(lines@) =~= want.take(k as int),
        decreases shown - k,
    {
        let ghost before = line_views(lines@);
        let i: usize = start + k;
        assert(cands[i as int] == menu.completion.candidates@[i as int]@);
        let l: Line = if i == selected {
            let t: String = "▶ ".to_owned().concat(menu.completion.candidates[i].as_str());
            Line::styled(t.as_str(), p.menu_selected())
        } else {
            let t: String = "  ".to_owned().concat(menu.completion.candidates[i].as_str());
            Line::styled(t.as_str(), p.code())
        };
        let ghost lv = l@;
        assert(lv == want[k as int]);
        lines.push(l);
        k += 1;
        assert(line_views(lines@) =~= before.push(lv));
    }
    assert(want.take(k as int) =~= want);
    Some(Popup { area, title, lines })
}

/// The selected candidate is among those that show, once there is a row.
pub proof fn the_selected_candidate_shows(selected: int, rows: int, count: int)
    requires
        0 <= selected < count,
        rows > 0,
    ensures
        popup_start(selected, rows, count) <= selected < popup_start(selected, rows, count) + rows,
        0 <= popup_start(selected, rows, count),
{
}

/// The two lines of a permission question.
pub open spec fn question(a: AskView, p: Palette) -> Seq<LineView> {
    seq![
        line(
            seq![
                span("⚠ "@, p.painted(Color::Yellow)),
                span(a.tool, p.accent()),
                span(": "@, p.chrome()),
                span(a.reason, p.chrome()),
            ],
        ),
        line(
            seq![
                span(" [y]once  "@, p.painted(Color::Green)),
                span("[s]ession  "@, p.painted(Color::Cyan)),
                span("[a]lways  "@, p.painted(Color::Green)),
                span("[n]o"@, p.painted(Color::Red)),
            ],
        ),
    ]
}

/// The two lines of a permission question.
pub fn ask_lines(ask: &PendingAsk, p: Palette) -> (out: Vec<Line>)
    ensures
        line_views(out@) == question(ask@, p),
{
    let mut head: Vec<Span> = Vec::new();
    head.push(Span::styled("⚠ ", p.semantic(Color::Yellow)));
    head.push(Span::styled(ask.tool.as_str(), p.accent()));
    head.push(Span::styled(": ", p.chrome()));
    head.push(Span::styled(ask.reason.as_str(), p.chrome()));
    assert(span_views(head@) =~= question(ask@, p)[0].spans);
    let mut keys: Vec<Span> = Vec::new();
    keys.push(Span::styled(" [y]once  ", p.semantic(Color::Green)));
    keys.push(Span::styled("[s]ession  ", p.semantic(Color::Cyan)));
    keys.push(Span::styled("[a]lways  ", p.semantic(Color::Green)));
    keys.push(Span::styled("[n]o", p.semantic(Color::Red)));
    assert(span_views(keys@) =~= question(ask@, p)[1].spans);
    let mut out: Vec<Line> = Vec::new();
    out.push(Line::new(head));
    out.push(Line::new(keys));
    assert(line_views(out@) =~= question(ask@, p));
    out
}

// ---- the menu overlay -------------------------------------------------------
/// The first session of a list, from `i` on, that is stored at a path.
pub open spec fn session_from(v: Seq<SessionView>, path: Seq<char>, i: int) -> Option<SessionView>
    decreases v.len() - i,
{
    if i < 0 || i >= v.len() {
        None
    } else if same_place(v[i].path, path) {
        Some(v[i])
    } else {
        session_from(v, path, i + 1)
    }
}

/// The first session of the projects, from project `g` on, that is stored at a
/// path.
pub open spec fn session_at(projects: Seq<ProjectView>, path: Seq<char>, g: int) -> Option<SessionView>
    decreases projects.len() - g,
{
    if g < 0 || g >= projects.len() {
        None
    } else {
        match session_from(projects[g].sessions, path, 0) {
            Some(x) => Some(x),
            None => session_at(projects, path, g + 1),
        }
    }
}

/// The position of a text among others, from `i` on.
pub open spec fn position_from(v: Seq<Seq<char>>, t: Seq<char>, i: int) -> Option<int>
    decreases v.len() - i,
{
    if i < 0 || i >= v.len() {
        None
    } else if v[i] == t {
        Some(i)
    } else {
        position_from(v, t, i + 1)
    }
}

impl MenuView {
    /// The heading of the page.
    pub open spec fn heading(self) -> Seq<char> {
        match self.page {
            PageView::Root => DEFAULT_LOGO@ + " Subconscious Code"@,
            PageView::Projects => "projects ("@ + decimal(self.projects.len()) + ")"@,
            PageView::Sessions(dir) => match self.find_project(dir) {
                Some(i) => place_name(self.projects[i].dir) + " — "@ + counted(
                    self.projects[i].sessions.len(),
                    "session"@,
                ),
                None => dir,
            },
            PageView::Settings => "settings"@,
        }
    }

    /// The keys of the page.
    pub open spec fn keys(self) -> Seq<char> {
        match self.page {
            PageView::Root => "↑↓ move · ↵ select · Esc close"@,
            PageView::Projects => "↑↓ move · ↵ open · ← back · r refresh · Esc close"@,
            PageView::Sessions(_) => "↑↓ move · ↵ resume · ← back · Esc close"@,
            PageView::Settings => "↑↓ move · ↵ edit/add · ←→ change · d remove model · Esc close"@,
        }
    }

    /// Where the API key comes from; never the key itself.
    pub open spec fn key_note(self) -> Seq<char> {
        match self.settings.key_source {
            KeySource::Environment => "(set via $"@ + self.settings.api_key_env + ")"@,
            KeySource::File => "(saved, ~/.sc/key)"@,
            KeySource::Unset => "(unset)"@,
        }
    }

    /// What is said of a field behind its value: where the model stands among
    /// several saved ones, and which variable outranks the value.
    pub open spec fn field_note(self, i: int) -> Seq<char> {
        let f = self.settings.fields[i];
        let models = self.settings.models;
        let place = if f.kind == FieldKind::Model && models.len() > 1 {
            match position_from(models, f.value, 0) {
                Some(at) => "  ["@ + decimal((at + 1) as nat) + "/"@ + decimal(models.len()) + "]"@,
                None => Seq::empty(),
            }
        } else {
            Seq::empty()
        };
        let over = if f.overridden {
            "  ($"@ + f.env + " overrides)"@
        } else {
            Seq::empty()
        };
        place + over
    }

    /// The text of a row. Times are in nanoseconds since the epoch.
    pub open spec fn row_text(self, row: RowView, now: u64) -> Seq<char> {
        match row {
            RowView::Goto(PageView::Projects) => "Projects"@ + pad_left(
                counted(self.projects.len(), "project"@),
                12,
            ),
            RowView::Goto(PageView::Settings) => "Settings"@,
            RowView::Goto(_) => "…"@,
            RowView::ChangeApiKey => pad_right("Change API key"@, 20) + " "@ + self.key_note(),
            RowView::Close => "Close"@,
            RowView::Project(dir) => match self.find_project(dir) {
                Some(i) => pad_right(shortened(place_name(self.projects[i].dir), 28), 28) + " "@
                    + pad_left(counted(self.projects[i].sessions.len(), "session"@), 12) + "  "@
                    + age(self.projects[i].last as int, now as int),
                None => dir,
            },
            RowView::Session(path) => match session_at(self.projects, path, 0) {
                Some(x) => pad_right(age(x.modified as int, now as int), 11) + " "@ + shortened(
                    match x.first_prompt {
                        Some(t) => t,
                        None => "(no prompt)"@,
                    },
                    48,
                ),
                None => path,
            },
            RowView::NewSession(_) => "+ New session here"@,
            RowView::Field(i) => if 0 <= i < self.settings.fields.len() {
                pad_right(self.settings.fields[i].name, 20) + " "@ + shortened(
                    self.settings.fields[i].value,
                    30,
                ) + self.field_note(i)
            } else {
                Seq::empty()
            },
        }
    }

    /// The line of a row.
    pub open spec fn row_line(self, row: RowView, selected: bool, now: u64, p: Palette) -> LineView {
        line(
            seq![
                span(
                    if selected {
                        "> "@
                    } else {
                        "  "@
                    },
                    p.accent(),
                ),
                span(
                    self.row_text(row, now),
                    if selected {
                        p.menu_selected()
                    } else {
                        p.body()
                    },
                ),
            ],
        )
    }

    /// The first row that shows, so that the selected one does.
    pub open spec fn first_row(self, body: int) -> int {
        most(self.selected - most(body - 1, 0), 0)
    }

    /// The rows that show in a body of so many.
    pub open spec fn row_lines(self, body: int, now: u64, p: Palette) -> Seq<LineView> {
        let start = self.first_row(body);
        let rows = self.rows();
        Seq::new(
            most(least(most(body, 1), rows.len() - start), 0) as nat,
            |k: int| self.row_line(rows[start + k], start + k == self.selected, now, p),
        )
    }

    /// The text in the editor as it shows: the API key only as dots.
    pub open spec fn shown_buffer(self, buffer: Seq<char>) -> Seq<char> {
        if self.editing_api_key {
            repeat('•', buffer.len())
        } else {
            buffer
        }
    }

    /// The lines under the rows: the editor while it is open, else the help.
    pub open spec fn footer_lines(self, p: Palette) -> Seq<LineView> {
        let middle = match self.editing {
            Some(b) => seq![
                line(
                    seq![
                        span("  > "@, p.accent()),
                        span(self.shown_buffer(b), p.body()),
                        span("█"@, p.accent()),
                    ],
                ),
                styled_line(
                    if self.editing_api_key {
                        "  api key · ↵ save · Esc cancel"@
                    } else {
                        "  ↵ save · Esc cancel"@
                    },
                    p.chrome(),
                ),
            ],
            None => (match self.current_field() {
                Some(i) => seq![
                    styled_line("  "@ + self.settings.fields[i].help, p.chrome()),
                ],
                None => Seq::empty(),
            }) + seq![styled_line("  "@ + self.keys(), p.chrome())],
        };
        let status = match self.status {
            Some(t) => seq![styled_line("  "@ + t, p.accent_dim())],
            None => Seq::empty(),
        };
        middle + status
    }

    /// The lines of the overlay in a box with so many rows inside.
    pub open spec fn overlay_lines(self, height: u16, now: u64, p: Palette) -> Seq<LineView> {
        let none = if self.rows().len() == 0 {
            seq![
                styled_line("  no sessions yet — start one and it'll show up here"@, p.chrome()),
            ]
        } else {
            Seq::empty()
        };
        seq![styled_line("  "@ + self.heading(), p.accent()), blank_line()] + none
            + self.row_lines(most(height - 5, 0), now, p) + seq![blank_line()]
            + self.footer_lines(p)
    }
}

fn find_session<'a>(menu: &'a MenuState, path: &str) -> (r: Option<(usize, usize)>)
    ensures
        match r {
            Some((g, i)) => g < menu.projects@.len() && i < menu.projects@[g as int].sessions@.len()
                && session_at(menu@.projects, path@, 0) == Some(
                menu.projects@[g as int].sessions@[i as int]@,
            ),
            None => session_at(menu@.projects, path@, 0) is None,
        },
{
    let mut g: usize = 0;
    while g < menu.projects.len()
        invariant
            g <= menu.projects@.len(),
            session_at(menu@.projects, path@, 0) == session_at(menu@.projects, path@, g as int),
        decreases menu.projects@.len() - g,
    {
        assert(menu@.projects[g as int] == menu.projects@[g as int]@);
        let ghost v = menu@.projects[g as int].sessions;
        let mut i: usize = 0;
        while i < menu.projects[g].sessions.len()
            invariant
                g < menu.projects@.len(),
                i <= menu.projects@[g as int].sessions@.len(),
                v == menu.projects@[g as int]@.sessions,
                v == menu@.projects[g as int].sessions,
                session_at(menu@.projects, path@, 0) == session_at(menu@.projects, path@, g as int),
                session_from(v, path@, 0) == session_from(v, path@, i as int),
            decreases menu.projects@[g as int].sessions@.len() - i,
        {
            assert(v[i as int] == menu.projects@[g as int].sessions@[i as int]@);
            if is_same_place(menu.projects[g].sessions[i].path.as_str(), path) {
                return Some((g, i));
            }
            i += 1;
        }
        g += 1;
    }
    None
}

/// The heading of the page.
pub fn menu_heading(menu: &MenuState) -> (r: String)
    ensures
        r@ == menu@.heading(),
{
    match &menu.page {
        MenuPage::Root => DEFAULT_LOGO.to_owned().concat(" Subconscious Code"),
        MenuPage::Projects => {
            assert(menu@.projects.len() == menu.projects@.len());
            "projects (".to_owned().concat(number(menu.projects.len() as u64).as_str()).concat(")")
        },
        MenuPage::Sessions(dir) => match menu.find_project(dir.as_str()) {
            Some(i) => {
                assert(menu@.projects[i as int] == menu.projects@[i as int]@);
                menu.projects[i].name().concat(" — ").concat(
                    plural(menu.projects[i].sessions.len(), "session").as_str(),
                )
            },
            None => dir.clone(),
        },
        MenuPage::Settings => "settings".to_owned(),
    }
}

/// The keys of the page.
pub fn menu_help(menu: &MenuState) -> (r: &'static str)
    ensures
        r@ == menu@.keys(),
{
    match &menu.page {
        MenuPage::Root => "↑↓ move · ↵ select · Esc close",
        MenuPage::Projects => "↑↓ move · ↵ open · ← back · r refresh · Esc close",
        MenuPage::Sessions(_) => "↑↓ move · ↵ resume · ← back · Esc close",
        MenuPage::Settings => "↑↓ move · ↵ edit/add · ←→ change · d remove model · Esc close",
    }
}

/// What is said of a field behind its value.
fn field_note_of(menu: &MenuState, i: usize) -> (r: String)
    requires
        i < menu.settings.fields@.len(),
    ensures
        r@ == menu@.field_note(i as int),
{
    assert(menu@.settings.fields[i as int] == menu.settings.fields@[i as int]@);
    let ghost models = menu@.settings.models;
    let n: usize = menu.settings.models.len();
    assert(models.len() == n);
    let mut note: String = String::new();
    assert(note@ =~= Seq::<char>::empty());
    if menu.settings.fields[i].kind == FieldKind::Model && n > 1 {
        let value: &str = menu.settings.fields[i].value.as_str();
        let mut k: usize = 0;
        let mut found: bool = false;
        while !found && k < n
            invariant
                k <= n,
                n == menu.settings.models@.len(),
                models == strings(menu.settings.models@),
                found ==> k < n && position_from(models, value@, 0) == Some(k as int),
                !found ==> position_from(models, value@, 0) == position_from(
                    models,
                    value@,
                    k as int,
                ),
            decreases n - k, (if found { 0int } else { 1int }),
        {
            assert(models[k as int] == menu.settings.models@[k as int]@);
            if same(menu.settings.models[k].as_str(), value) {
                found = true;
            } else {
                k += 1;
            }
        }
        if found {
            note = "  [".to_owned().concat(number(k as u64 + 1).as_str()).concat("/").concat(
                number(n as u64).as_str(),
            ).concat("]");
        }
    }
    let ghost place = note@;
    if menu.settings.fields[i].overridden {
        let over: String = "  ($".to_owned().concat(menu.settings.fields[i].env.as_str()).concat(
            " overrides)",
        );
        note = note.concat(over.as_str());
    } else {
        assert(place + Seq::<char>::empty() =~= place);
    }
    note
}

/// The text of a row.
fn row_text_of(menu: &MenuState, row: &Row, now: u64) -> (r: String)
    ensures
        r@ == menu@.row_text(row@, now),
{
    match row {
        Row::Goto(MenuPage::Projects) => {
            assert(menu@.projects.len() == menu.projects@.len());
            let n: String = plural(menu.projects.len(), "project");
            "Projects".to_owned().concat(padded_left(n.as_str(), 12).as_str())
        },
        Row::Goto(MenuPage::Settings) => "Settings".to_owned(),
        Row::Goto(_) => "…".to_owned(),
        Row::ChangeApiKey => {
            let source: String = match menu.settings.key_source {
                KeySource::Environment => "(set via $".to_owned().concat(
                    menu.settings.api_key_env.as_str(),
                ).concat(")"),
                KeySource::File => "(saved, ~/.sc/key)".to_owned(),
                KeySource::Unset => "(unset)".to_owned(),
            };
            padded_right("Change API key", 20).concat(" ").concat(source.as_str())
        },
        Row::Close => "Close".to_owned(),
        Row::Project(dir) => match menu.find_project(dir.as_str()) {
            Some(i) => {
                assert(menu@.projects[i as int] == menu.projects@[i as int]@);
                let name: String = ellipsize(menu.projects[i].name().as_str(), 28);
                let count: String = plural(menu.projects[i].sessions.len(), "session");
                padded_right(name.as_str(), 28).concat(" ").concat(
                    padded_left(count.as_str(), 12).as_str(),
                ).concat("  ").concat(ago(menu.projects[i].last, now).as_str())
            },
            None => dir.clone(),
        },
        Row::Session(path) => match find_session(menu, path.as_str()) {
            Some((g, i)) => {
                let when: String = ago(menu.projects[g].sessions[i].modified, now);
                let prompt: String = match &menu.projects[g].sessions[i].first_prompt {
                    Some(t) => ellipsize(t.as_str(), 48),
                    None => ellipsize("(no prompt)", 48),
                };
                padded_right(when.as_str(), 11).concat(" ").concat(prompt.as_str())
            },
            None => path.clone(),
        },
        Row::NewSession(_) => "+ New session here".to_owned(),
        Row::Field(i) => {
            if *i < menu.settings.fields.len() {
                assert(menu@.settings.fields[*i as int] == menu.settings.fields@[*i as int]@);
                let value: String = ellipsize(menu.settings.fields[*i].value.as_str(), 30);
                padded_right(menu.settings.fields[*i].name.as_str(), 20).concat(" ").concat(
                    value.as_str(),
                ).concat(field_note_of(menu, *i).as_str())
            } else {
                let none: String = String::new();
                assert(none@ =~= Seq::<char>::empty());
                none
            }
        },
    }
}

/// The line of a row: marked and highlighted where it is selected.
pub fn menu_row_line(menu: &MenuState, row: &Row, selected: bool, now: u64, p: Palette) -> (l: Line)
    ensures
        l@ == menu@.row_line(row@, selected, now, p),
{
    let marker: &'static str = if selected {
        "> "
    } else {
        "  "
    };
    let style: Style = if selected {
        p.menu_selected()
    } else {
        p.body()
    };
    let text: String = row_text_of(menu, row, now);
    let mut spans: Vec<Span> = Vec::new();
    spans.push(Span::styled(marker, p.accent()));
    spans.push(Span::styled(text.as_str(), style));
    assert(span_views(spans@) =~= menu@.row_line(row@, selected, now, p).spans);
    Line::new(spans)
}

/// The rows that show in a body of so many.
fn row_lines_of(menu: &MenuState, body: usize, now: u64, p: Palette) -> (out: Vec<Line>)
    ensures
        line_views(out@) == menu@.row_lines(body as int, now, p),
{
    let rows: Vec<Row> = menu.rows();
    let n: usize = rows.len();
    assert(menu@.rows().len() == n);
    let start: usize = menu.selected.saturating_sub(body.saturating_sub(1));
    let room: usize = if body < 1 {
        1
    } else {
        body
    };
    let left: usize = n.saturating_sub(start);
    let shown: usize = if room < left {
        room
    } else {
        left
    };
    let ghost want = menu@.row_lines(body as int, now, p);
    assert(want.len() == shown);
    let mut out: Vec<Line> = Vec::new();
    let mut k: usize = 0;
    while k < shown
        invariant
            k <= shown,
            shown <= left,
            left == (if start <= n { n - start } else { 0 }),
            n == rows@.len(),
            row_views(rows@) == menu@.rows(),
            start == menu@.first_row(body as int),
            want == menu@.row_lines(body as int, now, p),
            want.len() == shown,
            line_views(out@) =~= want.take(k as int),
        decreases shown - k,
    {
        let ghost before = line_views(out@);
        let i: usize = start + k;
        assert(menu@.rows()[i as int] == rows@[i as int]@);
        let l: Line = menu_row_line(menu, &rows[i], i == menu.selected, now, p);
        let ghost lv = l@;
        assert(lv == want[k as int]);
        out.push(l);
        k += 1;
        assert(line_views(out@) =~= before.push(lv));
    }
    assert(want.take(k as int) =~= want);
    out
}

/// The lines under the rows.
fn footer_lines_of(menu: &MenuState, p: Palette) -> (out: Vec<Line>)
    ensures
        line_views(out@) == menu@.footer_lines(p),
{
    let mut out: Vec<Line> = Vec::new();
    match &menu.editing {
        Some(b) => {
            let shown: String = if menu.editing_api_key {
                let n: usize = b.as_str().unicode_len();
                let mut dots: Vec<char> = Vec::new();
                push_repeat(&mut dots, '•', n);
                assert(dots@ =~= repeat('•', n as nat));
                text_of(dots.as_slice())
            } else {
                b.clone()
            };
            let mut spans: Vec<Span> = Vec::new();
            spans.push(Span::styled("  > ", p.accent()));
            spans.push(Span::styled(shown.as_str(), p.body()));
            spans.push(Span::styled("█", p.accent()));
            assert(span_views(spans@) =~= seq![
                span("  > "@, p.accent()),
                span(menu@.shown_buffer(b@), p.body()),
                span("█"@, p.accent()),
            ]);
            out.push(Line::new(spans));
            let hint: &'static str = if menu.editing_api_key {
                "  api key · ↵ save · Esc cancel"
            } else {
                "  ↵ save · Esc cancel"
            };
            out.push(Line::styled(hint, p.chrome()));
        },
        None => {
            match menu.current_field() {
                Some(i) => {
                    assert(menu@.settings.fields[i as int] == menu.settings.fields@[i as int]@);
                    let t: String = "  ".to_owned().concat(menu.settings.fields[i].help.as_str());
                    out.push(Line::styled(t.as_str(), p.chrome()));
                },
                None => {},
            }
            let t: String = "  ".to_owned().concat(menu_help(menu));
            out.push(Line::styled(t.as_str(), p.chrome()));
        },
    }
    match &menu.status {
        Some(t) => {
            let t: String = "  ".to_owned().concat(t.as_str());
            out.push(Line::styled(t.as_str(), p.accent_dim()));
        },
        None => {},
    }
    assert(line_views(out@) =~= menu@.footer_lines(p));
    out
}

/// The lines of the overlay in a box with `height` rows inside. The selected row
/// always shows, and so do the keys.
pub fn menu_overlay_lines(menu: &MenuState, height: u16, now: u64, p: Palette) -> (out: Vec<Line>)
    ensures
        line_views(out@) == menu@.overlay_lines(height, now, p),
{
    let mut out: Vec<Line> = Vec::new();
    let head: String = "  ".to_owned().concat(menu_heading(menu).as_str());
    out.push(Line::styled(head.as_str(), p.accent()));
    out.push(Line::blank());
    let n: usize = menu.rows().len();
    if n == 0 {
        out.push(
            Line::styled("  no sessions yet — start one and it'll show up here", p.chrome()),
        );
    }
    let ghost lead = line_views(out@);
    let rows: Vec<Line> = row_lines_of(menu, height.saturating_sub(5) as usize, now, p);
    append_lines(&mut out, rows);
    let ghost mid = line_views(out@);
    out.push(Line::blank());
    assert(line_views(out@) =~= mid.push(blank_line()));
    let foot: Vec<Line> = footer_lines_of(menu, p);
    append_lines(&mut out, foot);
    assert(line_views(out@) =~= menu@.overlay_lines(height, now, p));
    out
}

/// The API key never shows: the editor holds one dot for each character.
pub proof fn the_key_never_shows(m: MenuView, buffer: Seq<char>, i: int)
    requires
        m.editing_api_key,
        0 <= i < m.shown_buffer(buffer).len(),
    ensures
        m.shown_buffer(buffer)[i] == '•',
        m.shown_buffer(buffer).len() == buffer.len(),
{
}

// ---- the welcome card -------------------------------------------------------
/// The keys that the welcome card names, each with what it does.
pub open spec fn welcome_hints() -> Seq<(&'static str, &'static str)> {
    seq![
        ("@", "mention a file"),
        ("/", "run a command — /help lists them"),
        ("Shift+Tab", "switch mode — default, accept edits, plan, ask, auto"),
        ("Alt+↑ ↓", "recall an earlier prompt"),
        ("Ctrl+C", "quit"),
    ]
}

/// The lines of the welcome card: the name behind the mark, room, and the keys.
pub open spec fn welcome(glyph: Seq<char>, p: Palette) -> Seq<LineView> {
    seq![
        line(seq![span(glyph + " "@, p.accent()), span("Subconscious Code"@, p.accent())]),
        blank_line(),
        blank_line(),
    ] + welcome_hints().map_values(
        |h: (&'static str, &'static str)|
            line(seq![span("  "@ + pad_right(h.0@, 11), p.code()), span(h.1@, p.body())]),
    )
}

/// The lines of the welcome card.
pub fn welcome_lines(glyph: &str, p: Palette) -> (out: Vec<Line>)
    ensures
        line_views(out@) == welcome(glyph@, p),
{
    let mut first: Vec<Span> = Vec::new();
    first.push(Span::styled(glyph.to_owned().concat(" ").as_str(), p.accent()));
    first.push(Span::styled("Subconscious Code", p.accent()));
    assert(span_views(first@) =~= welcome(glyph@, p)[0].spans);
    let hints: Vec<(&'static str, &'static str)> = vec![
        ("@", "mention a file"),
        ("/", "run a command — /help lists them"),
        ("Shift+Tab", "switch mode — default, accept edits, plan, ask, auto"),
        ("Alt+↑ ↓", "recall an earlier prompt"),
        ("Ctrl+C", "quit"),
    ];
    assert(hints@ =~= welcome_hints());
    let mut out: Vec<Line> = Vec::new();
    out.push(Line::new(first));
    out.push(Line::blank());
    out.push(Line::blank());
    let ghost want = welcome(glyph@, p);
    assert(line_views(out@) =~= want.take(3));
    let mut i: usize = 0;
    while i < hints.len()
        invariant
            i <= hints@.len(),
            hints@ == welcome_hints(),
            want == welcome(glyph@, p),
            line_views(out@) =~= want.take(3 + i),
        decreases hints@.len() - i,
    {
        let ghost before = line_views(out@);
        let (key, label): (&'static str, &'static str) = hints[i];
        let mut spans: Vec<Span> = Vec::new();
        let k: String = "  ".to_owned().concat(padded_right(key, 11).as_str());
        spans.push(Span::styled(k.as_str(), p.code()));
        spans.push(Span::styled(label, p.body()));
        assert(span_views(spans@) =~= want[3 + i].spans);
        let l: Line = Line::new(spans);
        let ghost lv = l@;
        out.push(l);
        i += 1;
        assert(line_views(out@) =~= before.push(lv));
    }
    assert(want.take(3 + i) =~= want);
    out
}

/// Whether the large mark fits beside the welcome text: eight rows of it, and
/// its sixteen columns, a gap of two and forty-six for the text.
pub fn welcome_logo_fits(area: Area) -> (r: bool)
    ensures
        r == (area.height >= 8 && area.width >= 64),
{
    area.height >= 8 && area.width >= 64
}

/// Where the parts of the welcome card lie.
#[derive(Debug, Clone, Copy, PartialEq, Eq, Structural)]
pub struct WelcomeLayout {
    /// The large mark, where there is one.
    pub mark: Option<Area>,
    pub text: Area,
}

/// The layout of the welcome card: at the top of the area, as high as the text,
/// wrapped beside the mark, or the mark, whichever is higher. The text stands at
/// the bottom of its column.
pub open spec fn welcome_placed(
    lines: Seq<LineView>,
    area: Area,
    mark: Option<(u16, u16)>,
) -> WelcomeLayout {
    let (width, height): (u16, u16) = match mark {
        Some(m) => m,
        None => (0, 0),
    };
    let beside = most(area.width - width, 0);
    let rows = wrapped_rows(line_texts(lines), most(beside, 1) as u16) as int;
    let high = least(most(rows, height as int), area.height as int);
    match mark {
        None => WelcomeLayout { mark: None, text: Area { height: high as u16, ..area } },
        Some(_) => WelcomeLayout {
            mark: Some(
                Area {
                    width: least(width as int, area.width as int) as u16,
                    height: high as u16,
                    ..area
                },
            ),
            text: Area {
                x: u16_capped(area.x + width) as u16,
                y: u16_capped(area.y + most(high - rows, 0)) as u16,
                width: beside as u16,
                height: least(rows, high) as u16,
            },
        },
    }
}

/// The layout of the welcome card, its mark given by width and height.
pub fn welcome_layout(lines: &[Line], area: Area, mark: Option<(u16, u16)>) -> (r: WelcomeLayout)
    requires
        area.width <= WIDEST,
    ensures
        r == welcome_placed(line_views(lines@), area, mark),
{
    let (width, height): (u16, u16) = match mark {
        Some(m) => m,
        None => (0, 0),
    };
    let beside: u16 = area.width.saturating_sub(width);
    let all: usize = row_count(
        lines,
        if beside < 1 {
            1
        } else {
            beside
        },
    );
    let rows: u16 = if all < area.height as usize {
        all as u16
    } else {
        area.height
    };
    let wanted: u16 = if rows > height {
        rows
    } else {
        height
    };
    let high: u16 = if wanted < area.height {
        wanted
    } else {
        area.height
    };
    match mark {
        None => WelcomeLayout {
            mark: None,
            text: Area { x: area.x, y: area.y, width: area.width, height: high },
        },
        Some(_) => WelcomeLayout {
            mark: Some(
                Area {
                    x: area.x,
                    y: area.y,
                    width: if width < area.width {
                        width
                    } else {
                        area.width
                    },
                    height: high,
                },
            ),
            text: Area {
                x: area.x.saturating_add(width),
                y: area.y.saturating_add(high.saturating_sub(rows)),
                width: beside,
                height: if rows < high {
                    rows
                } else {
                    high
                },
            },
        },
    }
}

// ---- the text under a selection ---------------------------------------------
/// The texts of the cells of the screen.
pub open spec fn grid_texts(grid: Seq<Vec<String>>) -> Seq<Seq<Seq<char>>> {
    grid.map_values(|r: Vec<String>| strings(r@))
}

/// The columns of a row that a selection from `a` to `b` takes: from where it
/// starts on its first row, to where it ends on its last, whole rows between.
pub open spec fn selected_columns(a: (u16, u16), b: (u16, u16), row: int, width: int) -> (int, int) {
    (
        if row == a.1 {
            a.0 as int
        } else {
            0
        },
        least(
            if row == b.1 {
                b.0 as int
            } else {
                width - 1
            },
            width - 1,
        ),
    )
}

/// The text of some cells of a row, `to` counted.
pub open spec fn cells_text(row: Seq<Seq<char>>, from: int, to: int) -> Seq<char>
    decreases to + 1 - from,
{
    if from > to {
        Seq::empty()
    } else {
        cells_text(row, from, to - 1) + row[to]
    }
}

/// The selected text of a row, without the padding at its end.
pub open spec fn row_selection(grid: Seq<Seq<Seq<char>>>, a: (u16, u16), b: (u16, u16), row: int) -> Seq<
    char,
> {
    let (from, to) = selected_columns(a, b, row, grid[row].len() as int);
    trim_end(cells_text(grid[row], from, to))
}

/// The selected text of the rows from the first to `row`, a newline behind each
/// but the last of the selection.
pub open spec fn selection_text(grid: Seq<Seq<Seq<char>>>, a: (u16, u16), b: (u16, u16), row: int) -> Seq<
    char,
>
    decreases row + 1 - a.1,
{
    if row < a.1 {
        Seq::empty()
    } else {
        let here = selection_text(grid, a, b, row - 1) + row_selection(grid, a, b, row);
        if row < b.1 {
            here.push('\n')
        } else {
            here
        }
    }
}

/// The text under a selection of the screen, unless it is blank.
pub open spec fn harvested(grid: Seq<Seq<Seq<char>>>, a: (u16, u16), b: (u16, u16)) -> Option<
    Seq<char>,
> {
    let t = selection_text(grid, a, b, least(b.1 as int, grid.len() - 1));
    if trim(t).len() == 0 {
        None
    } else {
        Some(t)
    }
}

/// The columns of a row that a selection takes, where it takes any.
pub fn columns_selected(a: (u16, u16), b: (u16, u16), row: u16, width: u16) -> (r: Option<
    (u16, u16),
>)
    requires
        width > 0,
    ensures
        ({
            let (from, to) = selected_columns(a, b, row as int, width as int);
            match r {
                Some((x, y)) => x == from && y == to && from <= to,
                None => from > to,
            }
        }),
{
    let from: u16 = if row == a.1 {
        a.0
    } else {
        0
    };
    let last: u16 = width - 1;
    let want: u16 = if row == b.1 {
        b.0
    } else {
        last
    };
    let to: u16 = if want < last {
        want
    } else {
        last
    };
    if from <= to {
        Some((from, to))
    } else {
        None
    }
}

/// The selected text of a row, without the padding at its end.
fn row_selection_of(
    grid: &Vec<Vec<String>>,
    a: (u16, u16),
    b: (u16, u16),
    row: u16,
    width: u16,
) -> (r: String)
    requires
        width > 0,
        row < grid@.len(),
        grid@[row as int]@.len() == width,
    ensures
        r@ == row_selection(grid_texts(grid@), a, b, row as int),
{
    let ghost cells = grid_texts(grid@)[row as int];
    assert(cells.len() == width);
    let mut text: String = String::new();
    assert(text@ =~= Seq::<char>::empty());
    match columns_selected(a, b, row, width) {
        Some((from, to)) => {
            let mut c: usize = from as usize;
            assert(cells_text(cells, from as int, from - 1) =~= Seq::<char>::empty());
            while c <= to as usize
                invariant
                    from <= c <= to + 1,
                    to < width,
                    row < grid@.len(),
                    grid@[row as int]@.len() == width,
                    cells == grid_texts(grid@)[row as int],
                    text@ == cells_text(cells, from as int, c - 1),
                decreases to + 1 - c,
            {
                assert(cells[c as int] == grid@[row as int]@[c as int]@);
                text.append(grid[row as usize][c].as_str());
                c += 1;
            }
        },
        None => {
            let ghost pair = selected_columns(a, b, row as int, width as int);
            assert(cells_text(cells, pair.0, pair.1) =~= Seq::<char>::empty());
        },
    }
    let chars: Vec<char> = chars_of(text.as_str());
    let t: Vec<char> = trim_end_of(chars.as_slice());
    text_of(t.as_slice())
}

/// The text under a selection, read off the finished screen.
pub fn harvest(grid: &Vec<Vec<String>>, selection: &Selection, width: u16) -> (r: Option<String>)
    requires
        width > 0,
        0 < grid@.len() <= u16::MAX,
        forall|i: int| 0 <= i < grid@.len() ==> (#[trigger] grid@[i])@.len() == width,
    ensures
        selection.anchor == selection.head ==> r is None,
        selection.anchor != selection.head ==> {
            ||| Selection::reads_before(selection.anchor, selection.head) && text_option(r)
                == harvested(grid_texts(grid@), selection.anchor, selection.head)
            ||| Selection::reads_before(selection.head, selection.anchor) && text_option(r)
                == harvested(grid_texts(grid@), selection.head, selection.anchor)
        },
{
    if selection.is_empty() {
        return None;
    }
    let (a, b): ((u16, u16), (u16, u16)) = selection.ordered();
    let height: u16 = grid.len() as u16;
    let last: u16 = if b.1 < height - 1 {
        b.1
    } else {
        height - 1
    };
    let ghost g = grid_texts(grid@);
    let mut text: String = String::new();
    assert(text@ =~= Seq::<char>::empty());
    let mut row: u32 = a.1 as u32;
    while row <= last as u32
        invariant
            a.1 <= row,
            row <= last + 1 || row == a.1,
            width > 0,
            height == grid@.len(),
            last < height,
            forall|i: int| 0 <= i < grid@.len() ==> (#[trigger] grid@[i])@.len() == width,
            g == grid_texts(grid@),
            text@ == selection_text(g, a, b, row - 1),
        decreases last + 1 - row,
    {
        let r: u16 = row as u16;
        let line: String = row_selection_of(grid, a, b, r, width);
        text.append(line.as_str());
        if r < b.1 {
            text.push('\n');
        }
        row += 1;
    }
    proof {
        if row > last + 1 {
            assert(selection_text(g, a, b, last as int) =~= Seq::<char>::empty());
        }
    }
    let chars: Vec<char> = chars_of(text.as_str());
    let t: Vec<char> = trim_of(chars.as_slice());
    if t.len() == 0 {
        None
    } else {
        Some(text)
    }
}

} // verus!
