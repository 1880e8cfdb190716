//! What the terminal front end shows, as plain state.
//!
//! The transcript holds finished lines. Finished reasoning and failed tool calls
//! stand behind one row each that a click opens and closes; the row positions
//! are kept in step with every edit of the transcript. Times are nanoseconds on
//! one monotonic clock.
use crate::complete::{Completion, CompletionView};
use crate::fit::{capped, is_blank, line_cells, line_width};
use crate::markdown::{blocks, parse_blocks};
use crate::menu::{MenuState, MenuView};
use crate::styled::{
    append_lines,
    blank_line,
    copy_lines,
    line,
    line_views,
    raw,
    span,
    span_views,
    styled_line,
    Line,
    LineView,
    Span,
};
use crate::text::{
    byte_len,
    byte_len_of,
    chars_of,
    split,
    split_of,
    strings,
    text_of,
    text_option,
    texts,
    trim,
};
use crate::theme::{Palette, DEFAULT_LOGO};
use vstd::prelude::*;
use vstd::string::*;

verus! {

/// How freely the agent may act.
#[derive(Debug, Clone, Copy, PartialEq, Eq, Structural)]
pub enum AgentMode {
    Ask,
    Default,
    AcceptEdits,
    Plan,
    Auto,
}

/// How much of a prompt came from the provider's cache.
#[derive(Debug, Clone, Copy, PartialEq, Eq, Structural)]
pub struct CacheRate {
    pub cached: u64,
    pub prompt: u64,
}

/// What a request took, as the provider reports it.
#[derive(Debug, Clone, Copy, PartialEq, Eq, Structural)]
pub struct Usage {
    pub prompt_tokens: u64,
    pub completion_tokens: u64,
    pub total_tokens: u64,
    pub cache_hit_rate: Option<CacheRate>,
}

/// A permission question that has to be answered before the turn goes on.
#[derive(Debug, PartialEq, Eq)]
pub struct PendingAsk {
    pub id: u64,
    pub tool: String,
    /// The `command` among the tool's arguments, where it has one.
    pub command: Option<String>,
    pub reason: String,
}

/// What a question holds.
#[verifier::ext_equal]
pub struct AskView {
    pub id: u64,
    pub tool: Seq<char>,
    pub command: Option<Seq<char>>,
    pub reason: Seq<char>,
}

impl View for PendingAsk {
    type V = AskView;

    open spec fn view(&self) -> AskView {
        AskView {
            id: self.id,
            tool: self.tool@,
            command: text_option(self.command),
            reason: self.reason@,
        }
    }
}

/// The open completion menu.
#[derive(Debug, PartialEq, Eq)]
pub struct CompletionMenu {
    pub completion: Completion,
    pub selected: usize,
}

/// What the completion menu holds.
#[verifier::ext_equal]
pub struct ChoiceView {
    pub completion: CompletionView,
    pub selected: int,
}

impl View for CompletionMenu {
    type V = ChoiceView;

    open spec fn view(&self) -> ChoiceView {
        ChoiceView { completion: self.completion@, selected: self.selected as int }
    }
}

/// The bytes of the composer that one multi-line paste takes.
#[derive(Debug, Clone, Copy, PartialEq, Eq, Structural)]
pub struct PasteMarker {
    pub start: usize,
    pub end: usize,
    pub lines: usize,
}

/// Finished reasoning behind its row of the transcript.
#[derive(Debug, PartialEq, Eq)]
pub struct ReasoningBlock {
    pub summary_index: usize,
    pub body: Vec<Line>,
    /// How long it took; unknown for restored sessions.
    pub elapsed: Option<u64>,
    pub expanded: bool,
}

/// What such a block holds.
#[verifier::ext_equal]
pub struct ReasoningView {
    pub summary_index: int,
    pub body: Seq<LineView>,
    pub elapsed: Option<u64>,
    pub expanded: bool,
}

impl View for ReasoningBlock {
    type V = ReasoningView;

    open spec fn view(&self) -> ReasoningView {
        ReasoningView {
            summary_index: self.summary_index as int,
            body: line_views(self.body@),
            elapsed: self.elapsed,
            expanded: self.expanded,
        }
    }
}

/// What some blocks hold.
pub open spec fn reasoning_views(v: Seq<ReasoningBlock>) -> Seq<ReasoningView> {
    v.map_values(|b: ReasoningBlock| b@)
}

/// A finished tool call behind its row of the transcript.
#[derive(Debug, PartialEq, Eq)]
pub struct ToolBlock {
    pub summary_index: usize,
    pub body: Vec<Line>,
    pub collapsed_line: Line,
    pub expanded_line: Line,
    pub expanded: bool,
}

/// What such a block holds.
#[verifier::ext_equal]
pub struct ToolView {
    pub summary_index: int,
    pub body: Seq<LineView>,
    pub collapsed_line: LineView,
    pub expanded_line: LineView,
    pub expanded: bool,
}

impl View for ToolBlock {
    type V = ToolView;

    open spec fn view(&self) -> ToolView {
        ToolView {
            summary_index: self.summary_index as int,
            body: line_views(self.body@),
            collapsed_line: self.collapsed_line@,
            expanded_line: self.expanded_line@,
            expanded: self.expanded,
        }
    }
}

/// What some blocks hold.
pub open spec fn tool_views(v: Seq<ToolBlock>) -> Seq<ToolView> {
    v.map_values(|b: ToolBlock| b@)
}

/// Where a row that opens and closes stands on the screen.
#[derive(Debug, Clone, Copy, PartialEq, Eq, Structural)]
pub struct Hitbox {
    pub block_index: usize,
    pub x: u16,
    pub y: u16,
    pub width: u16,
    pub height: u16,
}

impl Hitbox {
    /// The cell lies in the box; the box ends where the screen's numbers do.
    pub open spec fn covers(self, column: u16, row: u16) -> bool {
        self.x <= column && column < u16_capped(self.x + self.width) && self.y <= row && row
            < u16_capped(self.y + self.height)
    }

    /// Whether the cell lies in the box.
    pub fn contains(self, column: u16, row: u16) -> (r: bool)
        ensures
            r == self.covers(column, row),
    {
        column >= self.x && column < self.x.saturating_add(self.width) && row >= self.y && row
            < self.y.saturating_add(self.height)
    }
}

/// A screen number, or the largest there is.
pub open spec fn u16_capped(n: int) -> int {
    if n > u16::MAX {
        u16::MAX as int
    } else {
        n
    }
}

/// A drag selection in screen cells, column first.
#[derive(Debug, Clone, Copy, PartialEq, Eq)]
pub struct Selection {
    /// Where the drag began.
    pub anchor: (u16, u16),
    /// Where the pointer is now.
    pub head: (u16, u16),
}

impl Selection {
    /// A cell comes before another in reading order, or is the same.
    pub open spec fn reads_before(a: (u16, u16), b: (u16, u16)) -> bool {
        a.1 < b.1 || (a.1 == b.1 && a.0 <= b.0)
    }

    /// The selection from its first cell to its last in reading order, whichever
    /// way it was dragged.
    pub fn ordered(&self) -> (r: ((u16, u16), (u16, u16)))
        ensures
            Self::reads_before(r.0, r.1),
            r == (self.anchor, self.head) || r == (self.head, self.anchor),
    {
        if self.anchor.1 < self.head.1 || (self.anchor.1 == self.head.1 && self.anchor.0
            <= self.head.0) {
            (self.anchor, self.head)
        } else {
            (self.head, self.anchor)
        }
    }

    /// The pointer never left the cell it went down on.
    pub fn is_empty(&self) -> (r: bool)
        ensures
            r == (self.anchor == self.head),
    {
        self.anchor.0 == self.head.0 && self.anchor.1 == self.head.1
    }
}

/// A file that the turn has changed: what it held before the turn, and now.
#[derive(Debug, PartialEq, Eq)]
pub struct FileChange {
    pub path: String,
    pub before: Option<Vec<u8>>,
    pub after: Option<Vec<u8>>,
}

/// What a file change holds.
#[verifier::ext_equal]
pub struct FileChangeView {
    pub path: Seq<char>,
    pub before: Option<Seq<u8>>,
    pub after: Option<Seq<u8>>,
}

/// What optional contents hold.
pub open spec fn bytes_option(b: Option<Vec<u8>>) -> Option<Seq<u8>> {
    match b {
        Some(v) => Some(v@),
        None => None,
    }
}

impl View for FileChange {
    type V = FileChangeView;

    open spec fn view(&self) -> FileChangeView {
        FileChangeView {
            path: self.path@,
            before: bytes_option(self.before),
            after: bytes_option(self.after),
        }
    }
}

/// What some file changes hold.
pub open spec fn change_views(v: Seq<FileChange>) -> Seq<FileChangeView> {
    v.map_values(|c: FileChange| c@)
}

/// The state that is shown.
#[derive(Debug, PartialEq, Eq)]
pub struct ViewState {
    /// Finished transcript entries.
    pub transcript: Vec<Line>,
    /// Assistant text that is still streaming.
    pub current_text: String,
    /// Reasoning that is still streaming.
    pub current_reasoning: String,
    /// The streaming turn as lines, as of the last refresh.
    pub current_parsed: Vec<Line>,
    /// `current_parsed` is stale.
    pub current_dirty: bool,
    /// Start of the current thinking phase.
    pub reasoning_started: Option<u64>,
    /// How long the thinking took, once answer text has begun.
    pub reasoning_elapsed: Option<u64>,
    pub reasoning_blocks: Vec<ReasoningBlock>,
    pub reasoning_hitboxes: Vec<Hitbox>,
    pub tool_blocks: Vec<ToolBlock>,
    pub tool_hitboxes: Vec<Hitbox>,
    pub mode: AgentMode,
    pub last_usage: Option<Usage>,
    /// Token size of the request context.
    pub context_tokens: Option<u64>,
    /// `context_tokens` is still the estimate made before the request.
    pub context_tokens_estimated: bool,
    pub cache_hit_rate: Option<CacheRate>,
    pub busy: bool,
    pub pending_ask: Option<PendingAsk>,
    pub composer: String,
    pub paste_markers: Vec<PasteMarker>,
    /// Submitted prompts, newest last.
    pub prompt_history: Vec<String>,
    /// The prompt being shown from the history, if any.
    pub history_pos: Option<usize>,
    /// The draft that was stashed when the history was entered.
    pub history_draft: String,
    pub menu: Option<CompletionMenu>,
    pub queued_messages: usize,
    pub queued_after_tool: bool,
    pub model_name: String,
    pub cwd: String,
    /// The view is pinned to the bottom.
    pub follow: bool,
    /// The topmost line shown when it is not.
    pub scroll_top: usize,
    /// Height of the transcript area at the last draw.
    pub area_height: usize,
    pub turn_started: Option<u64>,
    /// Net file changes of the turn, one per place.
    pub turn_file_changes: Vec<FileChange>,
    /// Tool calls in flight.
    pub running: u32,
    pub running_tool: Option<String>,
    /// Characters of answer text since the stream began.
    pub stream_chars: u64,
    pub stream_started: Option<u64>,
    pub last_input: Option<u64>,
    pub process_started: u64,
    pub menu_overlay: Option<MenuState>,
    pub selection: Option<Selection>,
    pub selection_text: Option<String>,
    pub copy_pending: bool,
    pub copy_notice: Option<(String, u64)>,
    pub location: String,
    pub mouse_capture: bool,
}

/// What the shown state holds.
#[verifier::ext_equal]
pub struct ViewModel {
    pub transcript: Seq<LineView>,
    pub current_text: Seq<char>,
    pub current_reasoning: Seq<char>,
    pub current_parsed: Seq<LineView>,
    pub current_dirty: bool,
    pub reasoning_started: Option<u64>,
    pub reasoning_elapsed: Option<u64>,
    pub reasoning_blocks: Seq<ReasoningView>,
    pub reasoning_hitboxes: Seq<Hitbox>,
    pub tool_blocks: Seq<ToolView>,
    pub tool_hitboxes: Seq<Hitbox>,
    pub mode: AgentMode,
    pub last_usage: Option<Usage>,
    pub context_tokens: Option<u64>,
    pub context_tokens_estimated: bool,
    pub cache_hit_rate: Option<CacheRate>,
    pub busy: bool,
    pub pending_ask: Option<AskView>,
    pub composer: Seq<char>,
    pub paste_markers: Seq<PasteMarker>,
    pub prompt_history: Seq<Seq<char>>,
    pub history_pos: Option<usize>,
    pub history_draft: Seq<char>,
    pub menu: Option<ChoiceView>,
    pub queued_messages: int,
    pub queued_after_tool: bool,
    pub model_name: Seq<char>,
    pub cwd: Seq<char>,
    pub follow: bool,
    pub scroll_top: int,
    pub area_height: int,
    pub turn_started: Option<u64>,
    pub turn_file_changes: Seq<FileChangeView>,
    pub running: u32,
    pub running_tool: Option<Seq<char>>,
    pub stream_chars: u64,
    pub stream_started: Option<u64>,
    pub last_input: Option<u64>,
    pub process_started: u64,
    pub menu_overlay: Option<MenuView>,
    pub selection: Option<Selection>,
    pub selection_text: Option<Seq<char>>,
    pub copy_pending: bool,
    pub copy_notice: Option<(Seq<char>, u64)>,
    pub location: Seq<char>,
    pub mouse_capture: bool,
}

/// What an optional question holds.
pub open spec fn ask_option(a: Option<PendingAsk>) -> Option<AskView> {
    match a {
        Some(x) => Some(x@),
        None => None,
    }
}

/// What an optional completion menu holds.
pub open spec fn choice_option(a: Option<CompletionMenu>) -> Option<ChoiceView> {
    match a {
        Some(x) => Some(x@),
        None => None,
    }
}

/// What an optional overlay holds.
pub open spec fn overlay_option(a: Option<MenuState>) -> Option<MenuView> {
    match a {
        Some(x) => Some(x@),
        None => None,
    }
}

/// What an optional notice holds.
pub open spec fn notice_option(a: Option<(String, u64)>) -> Option<(Seq<char>, u64)> {
    match a {
        Some(x) => Some((x.0@, x.1)),
        None => None,
    }
}

impl View for ViewState {
    type V = ViewModel;

    open spec fn view(&self) -> ViewModel {
        ViewModel {
            transcript: line_views(self.transcript@),
            current_text: self.current_text@,
            current_reasoning: self.current_reasoning@,
            current_parsed: line_views(self.current_parsed@),
            current_dirty: self.current_dirty,
            reasoning_started: self.reasoning_started,
            reasoning_elapsed: self.reasoning_elapsed,
            reasoning_blocks: reasoning_views(self.reasoning_blocks@),
            reasoning_hitboxes: self.reasoning_hitboxes@,
            tool_blocks: tool_views(self.tool_blocks@),
            tool_hitboxes: self.tool_hitboxes@,
            mode: self.mode,
            last_usage: self.last_usage,
            context_tokens: self.context_tokens,
            context_tokens_estimated: self.context_tokens_estimated,
            cache_hit_rate: self.cache_hit_rate,
            busy: self.busy,
            pending_ask: ask_option(self.pending_ask),
            composer: self.composer@,
            paste_markers: self.paste_markers@,
            prompt_history: strings(self.prompt_history@),
            history_pos: self.history_pos,
            history_draft: self.history_draft@,
            menu: choice_option(self.menu),
            queued_messages: self.queued_messages as int,
            queued_after_tool: self.queued_after_tool,
            model_name: self.model_name@,
            cwd: self.cwd@,
            follow: self.follow,
            scroll_top: self.scroll_top as int,
            area_height: self.area_height as int,
            turn_started: self.turn_started,
            turn_file_changes: change_views(self.turn_file_changes@),
            running: self.running,
            running_tool: text_option(self.running_tool),
            stream_chars: self.stream_chars,
            stream_started: self.stream_started,
            last_input: self.last_input,
            process_started: self.process_started,
            menu_overlay: overlay_option(self.menu_overlay),
            selection: self.selection,
            selection_text: text_option(self.selection_text),
            copy_pending: self.copy_pending,
            copy_notice: notice_option(self.copy_notice),
            location: self.location@,
            mouse_capture: self.mouse_capture,
        }
    }
}

/// A number of seconds with so many decimal places, as text: what formatting
/// `std::time::Duration::as_secs_f64` gives for so many nanoseconds.
pub uninterp spec fn seconds_text(nanos: u64, places: usize) -> Seq<char>;

/// Calls `std::time::Duration::as_secs_f64` and writes the result with a fixed
/// number of decimal places. Claims only that the text is the named one for
/// those nanoseconds and places. More places than 16 bits count would panic and
/// are left out.
#[verifier::external_body]
pub(crate) fn seconds_of(nanos: u64, places: usize) -> (r: String)
    requires
        places <= 65535,
    ensures
        r@ == seconds_text(nanos, places),
{
    format!("{:.*}", places, std::time::Duration::from_nanos(nanos).as_secs_f64())
}

/// The arrow of a row that opens and closes.
pub open spec fn arrow(expanded: bool) -> Seq<char> {
    if expanded {
        "▾ "@
    } else {
        "▸ "@
    }
}

/// The row of finished reasoning, its time already written out.
pub open spec fn thought_row(seconds: Option<Seq<char>>, expanded: bool, p: Palette) -> LineView {
    line(
        seq![
            span(arrow(expanded), p.accent()),
            span(
                match seconds {
                    Some(s) => "thought for "@ + s + "s"@,
                    None => "thought"@,
                },
                p.chrome(),
            ),
        ],
    )
}

/// The row of finished reasoning; two decimal places where the time is known.
pub open spec fn thought_line(elapsed: Option<u64>, expanded: bool, p: Palette) -> LineView {
    thought_row(
        match elapsed {
            Some(e) => Some(seconds_text(e, 2)),
            None => None,
        },
        expanded,
        p,
    )
}

/// The row of finished reasoning, its time already written out.
pub fn thought_row_of(seconds: Option<&str>, expanded: bool, p: Palette) -> (l: Line)
    ensures
        seconds matches Some(s) ==> l@ == thought_row(Some(s@), expanded, p),
        seconds is None ==> l@ == thought_row(None, expanded, p),
{
    let mark: &'static str = if expanded {
        "▾ "
    } else {
        "▸ "
    };
    let label: String = match seconds {
        Some(s) => "thought for ".to_owned().concat(s).concat("s"),
        None => "thought".to_owned(),
    };
    let mut spans: Vec<Span> = Vec::new();
    spans.push(Span::styled(mark, p.accent()));
    spans.push(Span::styled(label.as_str(), p.chrome()));
    let ghost want = match seconds {
        Some(s) => thought_row(Some(s@), expanded, p),
        None => thought_row(None, expanded, p),
    };
    assert(span_views(spans@) =~= want.spans);
    Line::new(spans)
}

/// The row of finished reasoning.
pub fn reasoning_summary_line(elapsed: Option<u64>, expanded: bool, p: Palette) -> (l: Line)
    ensures
        l@ == thought_line(elapsed, expanded, p),
{
    match elapsed {
        Some(e) => {
            let s: String = seconds_of(e, 2);
            thought_row_of(Some(s.as_str()), expanded, p)
        },
        None => thought_row_of(None, expanded, p),
    }
}

// ---- lines of a turn --------------------------------------------------------
/// The hidden rows of some reasoning.
pub open spec fn reasoning_rows(text: Seq<char>, p: Palette) -> Seq<LineView> {
    split(text, '\n').map_values(|l: Seq<char>| styled_line("  "@ + l, p.reasoning()))
}

/// The hidden rows of some reasoning.
pub fn reasoning_body_lines(text: &str, p: Palette) -> (out: Vec<Line>)
    ensures
        line_views(out@) == reasoning_rows(text@, p),
{
    let chars: Vec<char> = chars_of(text);
    let pieces: Vec<Vec<char>> = split_of(chars.as_slice(), '\n');
    let ghost all = reasoning_rows(text@, p);
    let mut out: Vec<Line> = Vec::new();
    let mut i: usize = 0;
    while i < pieces.len()
        invariant
            i <= pieces@.len(),
            texts(pieces@) == split(text@, '\n'),
            all == reasoning_rows(text@, p),
            all.len() == pieces@.len(),
            line_views(out@) =~= all.take(i as int),
        decreases pieces@.len() - i,
    {
        let ghost before = line_views(out@);
        let t: String = "  ".to_owned().concat(text_of(pieces[i].as_slice()).as_str());
        let l: Line = Line::styled(t.as_str(), p.reasoning());
        let ghost lv = l@;
        assert(split(text@, '\n')[i as int] == texts(pieces@)[i as int]);
        assert(lv == all[i as int]);
        out.push(l);
        i += 1;
        assert(line_views(out@) =~= before.push(lv));
    }
    assert(all.take(i as int) =~= all);
    out
}

/// Some span of the line has something other than white.
pub open spec fn has_text(l: LineView) -> bool {
    exists|k: int| 0 <= k < l.spans.len() && trim((#[trigger] l.spans[k]).content).len() > 0
}

/// The first line from position `i` on that has text, or the first of all.
pub open spec fn first_visible(lines: Seq<LineView>, i: int) -> int
    decreases lines.len() - i,
{
    if i < 0 || i >= lines.len() {
        0
    } else if has_text(lines[i]) {
        i
    } else {
        first_visible(lines, i + 1)
    }
}

/// A line behind its gutter: the mark on the first visible one, room on those
/// below; lines above it and lines without width stay as they are.
pub open spec fn guttered(l: LineView, i: int, first: int, p: Palette) -> LineView {
    if i < first || line_cells(l) == 0 {
        l
    } else {
        let g = if i == first {
            span(DEFAULT_LOGO@ + " "@, p.accent())
        } else {
            raw("  "@)
        };
        LineView { spans: seq![g] + l.spans, style: l.style }
    }
}

/// Assistant markdown as lines behind the two-cell gutter.
pub open spec fn answer_lines(text: Seq<char>, p: Palette) -> Seq<LineView> {
    let ls = blocks(text, p);
    let first = first_visible(ls, 0);
    ls.map(|i: int, l: LineView| guttered(l, i, first, p))
}

fn line_has_text(l: &Line) -> (r: bool)
    ensures
        r == has_text(l@),
{
    let mut i: usize = 0;
    while i < l.spans.len()
        invariant
            i <= l.spans@.len(),
            forall|k: int| 0 <= k < i ==> trim((#[trigger] l@.spans[k]).content).len() == 0,
        decreases l.spans@.len() - i,
    {
        assert(l@.spans[i as int] == l.spans@[i as int]@);
        if !is_blank(l.spans[i].content.as_str()) {
            return true;
        }
        i += 1;
    }
    false
}

/// Assistant markdown as lines behind the two-cell gutter.
pub fn parse_assistant_output(text: &str, p: Palette) -> (out: Vec<Line>)
    ensures
        line_views(out@) == answer_lines(text@, p),
{
    let lines: Vec<Line> = parse_blocks(text, p);
    let ghost ls = line_views(lines@);
    let ghost all = answer_lines(text@, p);
    let mut first: usize = 0;
    let mut i: usize = 0;
    let mut found: bool = false;
    while !found && i < lines.len()
        invariant
            i <= lines@.len(),
            ls == line_views(lines@),
            found ==> first == i && first_visible(ls, 0) == first,
            !found ==> first == 0 && first_visible(ls, 0) == first_visible(ls, i as int),
        decreases lines@.len() - i, (if found { 0int } else { 1int }),
    {
        assert(ls[i as int] == lines@[i as int]@);
        if line_has_text(&lines[i]) {
            first = i;
            found = true;
        } else {
            i += 1;
        }
    }
    assert(first == first_visible(ls, 0));
    let mut out: Vec<Line> = Vec::new();
    let mut i: usize = 0;
    while i < lines.len()
        invariant
            i <= lines@.len(),
            ls == line_views(lines@),
            ls == blocks(text@, p),
            all == answer_lines(text@, p),
            first == first_visible(ls, 0),
            line_views(out@) =~= all.take(i as int),
        decreases lines@.len() - i,
    {
        let ghost before = line_views(out@);
        assert(ls[i as int] == lines@[i as int]@);
        let mut l: Line = lines[i].clone();
        let w: usize = line_width(&l);
        if i >= first && w > 0 {
            let ghost sv = span_views(l.spans@);
            let g: Span = if i == first {
                Span::styled(DEFAULT_LOGO.to_owned().concat(" ").as_str(), p.accent())
            } else {
                Span::raw("  ")
            };
            let ghost gv = g@;
            l.spans.insert(0, g);
            assert(span_views(l.spans@) =~= seq![gv] + sv);
        }
        let ghost lv = l@;
        assert(lv == all[i as int]);
        out.push(l);
        i += 1;
        assert(line_views(out@) =~= before.push(lv));
    }
    assert(all.take(i as int) =~= all);
    out
}

/// The row that stands for reasoning while it streams.
pub open spec fn live_reasoning(p: Palette) -> LineView {
    styled_line("Marathoning"@, p.chrome())
}

/// The streaming turn as lines: one row for the reasoning, then the answer.
pub open spec fn live_lines(
    reasoning: Seq<char>,
    text: Seq<char>,
    elapsed: Option<u64>,
    p: Palette,
) -> Seq<LineView> {
    let thought = if reasoning.len() == 0 {
        Seq::empty()
    } else {
        let row = if elapsed is Some {
            thought_line(elapsed, false, p)
        } else {
            live_reasoning(p)
        };
        if text.len() > 0 {
            seq![row, blank_line()]
        } else {
            seq![row]
        }
    };
    if text.len() > 0 {
        thought + answer_lines(text, p)
    } else {
        thought
    }
}

/// The streaming turn as lines. The reasoning itself is never shown.
pub fn parse_live(reasoning: &str, text: &str, elapsed: Option<u64>, p: Palette) -> (out: Vec<Line>)
    ensures
        line_views(out@) == live_lines(reasoning@, text@, elapsed, p),
{
    let mut out: Vec<Line> = Vec::new();
    if !reasoning.is_empty() {
        let row: Line = match elapsed {
            Some(e) => reasoning_summary_line(Some(e), false, p),
            None => Line::styled("Marathoning", p.chrome()),
        };
        out.push(row);
        if !text.is_empty() {
            out.push(Line::blank());
        }
    }
    let ghost lead = line_views(out@);
    if !text.is_empty() {
        append_lines(&mut out, parse_assistant_output(text, p));
    }
    assert(line_views(out@) =~= live_lines(reasoning@, text@, elapsed, p));
    out
}

// ---- edits of the transcript ------------------------------------------------
/// `n` elements at `at` replaced by others.
pub open spec fn spliced(t: Seq<LineView>, at: int, n: int, with: Seq<LineView>) -> Seq<LineView> {
    t.take(at) + with + t.skip(at + n)
}

/// Replace `n` lines at `at` by others.
pub fn splice_lines(t: &mut Vec<Line>, at: usize, n: usize, with: Vec<Line>)
    requires
        at + n <= old(t)@.len(),
    ensures
        line_views(final(t)@) == spliced(
            line_views(old(t)@),
            at as int,
            n as int,
            line_views(with@),
        ),
{
    let ghost all = line_views(t@);
    let mut tail: Vec<Line> = t.split_off(at);
    let rest: Vec<Line> = tail.split_off(n);
    assert(line_views(t@) =~= all.take(at as int));
    assert(line_views(rest@) =~= all.skip(at + n));
    append_lines(t, with);
    append_lines(t, rest);
}

/// A position moved up by `n` where it is at or behind `threshold`.
pub open spec fn moved_down(i: int, threshold: int, n: int) -> int {
    if i < threshold {
        i
    } else if i + n > usize::MAX {
        usize::MAX as int
    } else {
        i + n
    }
}

/// A position moved back by `n` where it is at or behind `threshold`.
pub open spec fn moved_up(i: int, threshold: int, n: int) -> int {
    if i < threshold {
        i
    } else if i < n {
        0
    } else {
        i - n
    }
}

impl ReasoningView {
    /// The block with its row elsewhere.
    pub open spec fn at(self, i: int) -> ReasoningView {
        ReasoningView { summary_index: i, ..self }
    }
}

impl ToolView {
    /// The block with its row elsewhere.
    pub open spec fn at(self, i: int) -> ToolView {
        ToolView { summary_index: i, ..self }
    }

    /// The row that the block shows.
    pub open spec fn face(self) -> LineView {
        if self.expanded {
            self.expanded_line
        } else {
            self.collapsed_line
        }
    }
}

impl ViewModel {
    /// Rows at or behind `threshold` moved down by `n`.
    pub open spec fn rows_down(self, threshold: int, n: int) -> ViewModel {
        ViewModel {
            reasoning_blocks: self.reasoning_blocks.map_values(
                |b: ReasoningView| b.at(moved_down(b.summary_index, threshold, n)),
            ),
            tool_blocks: self.tool_blocks.map_values(
                |b: ToolView| b.at(moved_down(b.summary_index, threshold, n)),
            ),
            ..self
        }
    }

    /// Rows at or behind `threshold` moved up by `n`.
    pub open spec fn rows_up(self, threshold: int, n: int) -> ViewModel {
        ViewModel {
            reasoning_blocks: self.reasoning_blocks.map_values(
                |b: ReasoningView| b.at(moved_up(b.summary_index, threshold, n)),
            ),
            tool_blocks: self.tool_blocks.map_values(
                |b: ToolView| b.at(moved_up(b.summary_index, threshold, n)),
            ),
            ..self
        }
    }

    /// Without the click targets of the last frame.
    pub open spec fn without_targets(self) -> ViewModel {
        ViewModel {
            reasoning_hitboxes: Seq::empty(),
            tool_hitboxes: Seq::empty(),
            ..self
        }
    }

    /// The row at `s` replaced and `n` lines below it opened or closed.
    pub open spec fn opened(self, s: int, row: LineView, body: Seq<LineView>) -> ViewModel {
        ViewModel {
            transcript: spliced(self.transcript, s, 1, seq![row] + body),
            ..self
        }.rows_down(s + 1, body.len() as int).without_targets()
    }

    /// The row at `s` replaced and the lines below it closed.
    pub open spec fn closed(self, s: int, row: LineView, n: int) -> ViewModel {
        let shown = if s + 1 + n < self.transcript.len() {
            n
        } else {
            self.transcript.len() - s - 1
        };
        ViewModel {
            transcript: spliced(self.transcript, s, 1 + shown, seq![row]),
            ..self
        }.rows_up(capped((s + 1 + n) as nat) as int, n).without_targets()
    }

    /// The reasoning block `i` opened or closed in place; nothing where there is
    /// no such block or its row is out of reach.
    pub open spec fn toggled_reasoning(self, i: int, p: Palette) -> Option<ViewModel> {
        if i < 0 || i >= self.reasoning_blocks.len() || self.reasoning_blocks[i].summary_index
            >= self.transcript.len() {
            None
        } else {
            let b = self.reasoning_blocks[i];
            let m = ViewModel {
                reasoning_blocks: self.reasoning_blocks.update(
                    i,
                    ReasoningView { expanded: !b.expanded, ..b },
                ),
                ..self
            };
            let row = thought_line(b.elapsed, !b.expanded, p);
            Some(
                if b.expanded {
                    m.closed(b.summary_index, row, b.body.len() as int)
                } else {
                    m.opened(b.summary_index, row, b.body)
                },
            )
        }
    }

    /// The tool block `i` opened or closed in place.
    pub open spec fn toggled_tool(self, i: int) -> Option<ViewModel> {
        if i < 0 || i >= self.tool_blocks.len() || self.tool_blocks[i].summary_index
            >= self.transcript.len() {
            None
        } else {
            let b = self.tool_blocks[i];
            let c = ToolView { expanded: !b.expanded, ..b };
            let m = ViewModel { tool_blocks: self.tool_blocks.update(i, c), ..self };
            Some(
                if b.expanded {
                    m.closed(b.summary_index, c.face(), b.body.len() as int)
                } else {
                    m.opened(b.summary_index, c.face(), b.body)
                },
            )
        }
    }

    /// A live range replaced by the closed row of a new tool block.
    pub open spec fn with_tool_block(
        self,
        start: int,
        len: int,
        collapsed: LineView,
        expanded: LineView,
        body: Seq<LineView>,
    ) -> ViewModel {
        let m = ViewModel {
            transcript: spliced(self.transcript, start, len, seq![collapsed]),
            ..self
        };
        let m = if len > 1 {
            m.rows_up(start + len, len - 1)
        } else {
            m
        };
        ViewModel {
            tool_blocks: m.tool_blocks.push(
                ToolView {
                    summary_index: start,
                    body,
                    collapsed_line: collapsed,
                    expanded_line: expanded,
                    expanded: false,
                },
            ),
            ..m
        }.without_targets()
    }

    /// A range taken out of the transcript.
    pub open spec fn without_range(self, start: int, len: int) -> ViewModel {
        if len == 0 {
            self
        } else {
            ViewModel {
                transcript: spliced(self.transcript, start, len, Seq::empty()),
                ..self
            }.rows_up(start + len, len).without_targets()
        }
    }

    /// A new tool block at the end.
    pub open spec fn with_tool_at_end(
        self,
        collapsed: LineView,
        expanded: LineView,
        body: Seq<LineView>,
    ) -> ViewModel {
        ViewModel {
            transcript: self.transcript.push(collapsed),
            tool_blocks: self.tool_blocks.push(
                ToolView {
                    summary_index: self.transcript.len() as int,
                    body,
                    collapsed_line: collapsed,
                    expanded_line: expanded,
                    expanded: false,
                },
            ),
            ..self
        }.without_targets()
    }

    /// Without transcript and blocks.
    pub open spec fn cleared(self) -> ViewModel {
        ViewModel {
            transcript: Seq::empty(),
            reasoning_blocks: Seq::empty(),
            tool_blocks: Seq::empty(),
            ..self
        }.without_targets()
    }

    /// A thinking phase begun.
    pub open spec fn thinking_from(self, now: u64) -> ViewModel {
        ViewModel { reasoning_started: Some(now), reasoning_elapsed: None, ..self }
    }

    /// The thinking time frozen, where there is reasoning and it is not frozen yet.
    pub open spec fn thought_until(self, now: u64) -> ViewModel {
        if self.current_reasoning.len() == 0 || self.reasoning_elapsed is Some {
            self
        } else {
            ViewModel {
                reasoning_elapsed: Some(since(self.reasoning_started, now)),
                ..self
            }
        }
    }

    /// A turn's reasoning and answer moved to the transcript, the reasoning
    /// behind a closed row.
    pub open spec fn with_turn(
        self,
        reasoning: Seq<char>,
        text: Seq<char>,
        elapsed: Option<u64>,
        p: Palette,
    ) -> ViewModel {
        let thought = if reasoning.len() == 0 {
            self
        } else {
            ViewModel {
                transcript: if text.len() > 0 {
                    self.transcript.push(thought_line(elapsed, false, p)).push(blank_line())
                } else {
                    self.transcript.push(thought_line(elapsed, false, p))
                },
                reasoning_blocks: self.reasoning_blocks.push(
                    ReasoningView {
                        summary_index: self.transcript.len() as int,
                        body: reasoning_rows(reasoning, p),
                        elapsed,
                        expanded: false,
                    },
                ),
                ..self
            }
        };
        if text.len() > 0 {
            ViewModel { transcript: thought.transcript + answer_lines(text, p), ..thought }
        } else {
            thought
        }
    }

    /// What has streamed moved to the transcript.
    #[verifier::opaque]
    pub open spec fn flushed(self, now: u64, p: Palette) -> ViewModel {
        if self.current_text.len() == 0 && self.current_reasoning.len() == 0 {
            self
        } else {
            let m = self.thought_until(now);
            let elapsed = match m.reasoning_elapsed {
                Some(e) => e,
                None => 0,
            };
            ViewModel {
                current_text: Seq::empty(),
                current_reasoning: Seq::empty(),
                current_parsed: Seq::empty(),
                current_dirty: false,
                reasoning_started: None,
                reasoning_elapsed: None,
                ..m.with_turn(m.current_reasoning, m.current_text, Some(elapsed), p)
            }
        }
    }

    /// A line added to the transcript.
    pub open spec fn told(self, l: LineView) -> ViewModel {
        ViewModel { transcript: self.transcript.push(l), ..self }
    }

    /// Nothing has been said yet and nothing is going on.
    pub open spec fn welcoming(self) -> bool {
        self.transcript.len() == 0 && self.current_text.len() == 0 && self.current_reasoning.len()
            == 0 && !self.busy && self.pending_ask is None
    }
}

/// The time since an optional start.
pub open spec fn since(start: Option<u64>, now: u64) -> u64 {
    match start {
        Some(s) => if now > s {
            (now - s) as u64
        } else {
            0
        },
        None => 0,
    }
}

/// The time since an optional start; none where there is no start or it lies
/// ahead.
pub fn elapsed_since(start: Option<u64>, now: u64) -> (d: u64)
    ensures
        d == since(start, now),
{
    match start {
        Some(s) => now.saturating_sub(s),
        None => 0,
    }
}

/// A text with every kind of line end made a newline.
pub open spec fn with_newlines(s: Seq<char>) -> Seq<char>
    decreases s.len(),
{
    if s.len() == 0 {
        s
    } else if s[0] == '\r' {
        let n: int = if s.len() > 1 && s[1] == '\n' {
            2
        } else {
            1
        };
        seq!['\n'] + with_newlines(s.skip(n))
    } else {
        seq![s[0]] + with_newlines(s.skip(1))
    }
}

/// A text with every kind of line end made a newline.
fn newlines_of(s: &[char]) -> (out: Vec<char>)
    ensures
        out@ == with_newlines(s@),
{
    let mut out: Vec<char> = Vec::new();
    let mut i: usize = 0;
    assert(s@.skip(0) =~= s@);
    assert(out@ + with_newlines(s@) =~= with_newlines(s@));
    while i < s.len()
        invariant
            i <= s@.len(),
            out@ + with_newlines(s@.skip(i as int)) == with_newlines(s@),
        decreases s@.len() - i,
    {
        let ghost here = s@.skip(i as int);
        let ghost before = out@;
        assert(here[0] == s@[i as int]);
        assert(here.skip(1) =~= s@.skip(i + 1));
        if s[i] == '\r' {
            out.push('\n');
            if i + 1 < s.len() && s[i + 1] == '\n' {
                assert(here[1] == '\n');
                assert(here.skip(2) =~= s@.skip(i + 2));
                let ghost rest = with_newlines(s@.skip(i + 2));
                assert(before + (seq!['\n'] + rest) =~= out@ + rest);
                i += 2;
            } else {
                let ghost rest = with_newlines(s@.skip(i + 1));
                assert(before + (seq!['\n'] + rest) =~= out@ + rest);
                i += 1;
            }
        } else {
            let c: char = s[i];
            out.push(c);
            let ghost rest = with_newlines(s@.skip(i + 1));
            assert(before + (seq![c] + rest) =~= out@ + rest);
            i += 1;
        }
    }
    assert(s@.skip(i as int) =~= Seq::<char>::empty());
    assert(out@ =~= with_newlines(s@));
    out
}

/// What a toggle did: the row it anchors at, and whether the block is now open.
#[derive(Debug, Clone, Copy, PartialEq, Eq, Structural)]
pub struct TranscriptToggle {
    pub summary_index: usize,
    pub expanded: bool,
}

/// The state before anything has happened.
pub open spec fn blank_state(model_name: Seq<char>, started: u64) -> ViewModel {
    ViewModel {
        transcript: Seq::empty(),
        current_text: Seq::empty(),
        current_reasoning: Seq::empty(),
        current_parsed: Seq::empty(),
        current_dirty: false,
        reasoning_started: None,
        reasoning_elapsed: None,
        reasoning_blocks: Seq::empty(),
        reasoning_hitboxes: Seq::empty(),
        tool_blocks: Seq::empty(),
        tool_hitboxes: Seq::empty(),
        mode: AgentMode::Default,
        last_usage: None,
        context_tokens: None,
        context_tokens_estimated: false,
        cache_hit_rate: None,
        busy: false,
        pending_ask: None,
        composer: Seq::empty(),
        paste_markers: Seq::empty(),
        prompt_history: Seq::empty(),
        history_pos: None,
        history_draft: Seq::empty(),
        menu: None,
        queued_messages: 0,
        queued_after_tool: false,
        model_name,
        cwd: Seq::empty(),
        follow: true,
        scroll_top: 0,
        area_height: 0,
        turn_started: None,
        turn_file_changes: Seq::empty(),
        running: 0,
        running_tool: None,
        stream_chars: 0,
        stream_started: None,
        last_input: None,
        process_started: started,
        menu_overlay: None,
        selection: None,
        selection_text: None,
        copy_pending: false,
        copy_notice: None,
        location: Seq::empty(),
        mouse_capture: false,
    }
}

/// The first target from position `i` on that covers the cell.
pub open spec fn target_from(boxes: Seq<Hitbox>, column: u16, row: u16, i: int) -> Option<int>
    decreases boxes.len() - i,
{
    if i < 0 || i >= boxes.len() {
        None
    } else if boxes[i].covers(column, row) {
        Some(boxes[i].block_index as int)
    } else {
        target_from(boxes, column, row, i + 1)
    }
}

fn find_target(boxes: &Vec<Hitbox>, column: u16, row: u16) -> (r: Option<usize>)
    ensures
        match r {
            Some(b) => target_from(boxes@, column, row, 0) == Some(b as int),
            None => target_from(boxes@, column, row, 0) is None,
        },
{
    let mut i: usize = 0;
    while i < boxes.len()
        invariant
            i <= boxes@.len(),
            target_from(boxes@, column, row, 0) == target_from(boxes@, column, row, i as int),
        decreases boxes@.len() - i,
    {
        if boxes[i].contains(column, row) {
            return Some(boxes[i].block_index);
        }
        i += 1;
    }
    None
}

/// Move the rows of some blocks.
fn shift_reasoning(v: &mut Vec<ReasoningBlock>, threshold: usize, n: usize, down: bool)
    ensures
        down ==> reasoning_views(final(v)@) == reasoning_views(old(v)@).map_values(
            |b: ReasoningView| b.at(moved_down(b.summary_index, threshold as int, n as int)),
        ),
        !down ==> reasoning_views(final(v)@) == reasoning_views(old(v)@).map_values(
            |b: ReasoningView| b.at(moved_up(b.summary_index, threshold as int, n as int)),
        ),
{
    let ghost start = reasoning_views(v@);
    let ghost want = if down {
        start.map_values(
            |b: ReasoningView| b.at(moved_down(b.summary_index, threshold as int, n as int)),
        )
    } else {
        start.map_values(
            |b: ReasoningView| b.at(moved_up(b.summary_index, threshold as int, n as int)),
        )
    };
    let mut i: usize = 0;
    while i < v.len()
        invariant
            i <= v@.len(),
            v@.len() == start.len(),
            want.len() == start.len(),
            forall|k: int| 0 <= k < i ==> (#[trigger] v@[k])@ == want[k],
            forall|k: int| i <= k < v@.len() ==> (#[trigger] v@[k])@ == start[k],
            forall|k: int|
                0 <= k < start.len() ==> #[trigger] want[k] == start[k].at(
                    if down {
                        moved_down(start[k].summary_index, threshold as int, n as int)
                    } else {
                        moved_up(start[k].summary_index, threshold as int, n as int)
                    },
                ),
        decreases v@.len() - i,
    {
        let ghost before = v@;
        let at: usize = v[i].summary_index;
        assert(v@[i as int]@ == start[i as int]);
        if at >= threshold {
            v[i].summary_index = if down {
                at.saturating_add(n)
            } else {
                at.saturating_sub(n)
            };
        }
        assert(v@[i as int]@ =~= want[i as int]);
        assert(forall|k: int| 0 <= k < v@.len() && k != i ==> #[trigger] v@[k] == before[k]);
        i += 1;
    }
    assert(reasoning_views(v@) =~= want);
}

/// Move the rows of some blocks.
fn shift_tools(v: &mut Vec<ToolBlock>, threshold: usize, n: usize, down: bool)
    ensures
        down ==> tool_views(final(v)@) == tool_views(old(v)@).map_values(
            |b: ToolView| b.at(moved_down(b.summary_index, threshold as int, n as int)),
        ),
        !down ==> tool_views(final(v)@) == tool_views(old(v)@).map_values(
            |b: ToolView| b.at(moved_up(b.summary_index, threshold as int, n as int)),
        ),
{
    let ghost start = tool_views(v@);
    let ghost want = if down {
        start.map_values(
            |b: ToolView| b.at(moved_down(b.summary_index, threshold as int, n as int)),
        )
    } else {
        start.map_values(
            |b: ToolView| b.at(moved_up(b.summary_index, threshold as int, n as int)),
        )
    };
    let mut i: usize = 0;
    while i < v.len()
        invariant
            i <= v@.len(),
            v@.len() == start.len(),
            want.len() == start.len(),
            forall|k: int| 0 <= k < i ==> (#[trigger] v@[k])@ == want[k],
            forall|k: int| i <= k < v@.len() ==> (#[trigger] v@[k])@ == start[k],
            forall|k: int|
                0 <= k < start.len() ==> #[trigger] want[k] == start[k].at(
                    if down {
                        moved_down(start[k].summary_index, threshold as int, n as int)
                    } else {
                        moved_up(start[k].summary_index, threshold as int, n as int)
                    },
                ),
        decreases v@.len() - i,
    {
        let ghost before = v@;
        let at: usize = v[i].summary_index;
        assert(v@[i as int]@ == start[i as int]);
        if at >= threshold {
            v[i].summary_index = if down {
                at.saturating_add(n)
            } else {
                at.saturating_sub(n)
            };
        }
        assert(v@[i as int]@ =~= want[i as int]);
        assert(forall|k: int| 0 <= k < v@.len() && k != i ==> #[trigger] v@[k] == before[k]);
        i += 1;
    }
    assert(tool_views(v@) =~= want);
}

/// A list of one line.
fn one_line(l: Line) -> (v: Vec<Line>)
    ensures
        line_views(v@) == seq![l@],
{
    let ghost lv = l@;
    let mut v: Vec<Line> = Vec::new();
    v.push(l);
    assert(line_views(v@) =~= seq![lv]);
    v
}

impl ViewState {
    /// The state before anything has happened.
    pub fn new(model_name: String, started: u64) -> (r: Self)
        ensures
            r@ == blank_state(model_name@, started),
    {
        let r = ViewState {
            transcript: Vec::new(),
            current_text: String::new(),
            current_reasoning: String::new(),
            current_parsed: Vec::new(),
            current_dirty: false,
            reasoning_started: None,
            reasoning_elapsed: None,
            reasoning_blocks: Vec::new(),
            reasoning_hitboxes: Vec::new(),
            tool_blocks: Vec::new(),
            tool_hitboxes: Vec::new(),
            mode: AgentMode::Default,
            last_usage: None,
            context_tokens: None,
            context_tokens_estimated: false,
            cache_hit_rate: None,
            busy: false,
            pending_ask: None,
            composer: String::new(),
            paste_markers: Vec::new(),
            prompt_history: Vec::new(),
            history_pos: None,
            history_draft: String::new(),
            menu: None,
            queued_messages: 0,
            queued_after_tool: false,
            model_name,
            cwd: String::new(),
            follow: true,
            scroll_top: 0,
            area_height: 0,
            turn_started: None,
            turn_file_changes: Vec::new(),
            running: 0,
            running_tool: None,
            stream_chars: 0,
            stream_started: None,
            last_input: None,
            process_started: started,
            menu_overlay: None,
            selection: None,
            selection_text: None,
            copy_pending: false,
            copy_notice: None,
            location: String::new(),
            mouse_capture: false,
        };
        assert(r@ =~= blank_state(model_name@, started));
        r
    }

    /// Nothing has been said yet and nothing is going on, so that the welcome
    /// card shows.
    pub fn welcome_card_visible(&self) -> (r: bool)
        ensures
            r == self@.welcoming(),
    {
        self.transcript.len() == 0 && self.current_text.as_str().is_empty()
            && self.current_reasoning.as_str().is_empty() && !self.busy
            && self.pending_ask.is_none()
    }

    /// Add a line to the transcript.
    pub fn tell(&mut self, l: Line)
        ensures
            final(self)@ == old(self)@.told(l@),
    {
        let ghost t = line_views(self.transcript@);
        let ghost lv = l@;
        self.transcript.push(l);
        assert(line_views(self.transcript@) =~= t.push(lv));
    }

    /// Take in one paste without reading its newlines as submissions. Gives the
    /// number of lines; a paste of several is shown as their number.
    pub fn append_paste(&mut self, raw: &str) -> (n: usize)
        ensures
            ({
                let text = with_newlines(raw@);
                let lines = split(text, '\n').len();
                if text.len() == 0 {
                    n == 0 && final(self)@ == old(self)@
                } else {
                    n == lines && final(self)@ == (ViewModel {
                        composer: old(self)@.composer + text,
                        paste_markers: if lines > 1 {
                            old(self)@.paste_markers.push(
                                PasteMarker {
                                    start: byte_len(old(self)@.composer) as usize,
                                    end: byte_len(old(self)@.composer + text) as usize,
                                    lines: lines as usize,
                                },
                            )
                        } else {
                            old(self)@.paste_markers
                        },
                        ..old(self)@
                    }) && byte_len(old(self)@.composer + text) <= usize::MAX
                }
            }),
    {
        let chars: Vec<char> = chars_of(raw);
        let text: Vec<char> = newlines_of(chars.as_slice());
        if text.len() == 0 {
            return 0;
        }
        let pieces: Vec<Vec<char>> = split_of(text.as_slice(), '\n');
        let lines: usize = pieces.len();
        assert(texts(pieces@).len() == lines);
        let start: usize = byte_len_of(self.composer.as_str());
        let t: String = text_of(text.as_slice());
        self.composer.append(t.as_str());
        let end: usize = byte_len_of(self.composer.as_str());
        if lines > 1 {
            self.paste_markers.push(PasteMarker { start, end, lines });
        }
        lines
    }

    /// Show the text itself from now on.
    pub fn clear_paste_markers(&mut self)
        ensures
            final(self)@ == (ViewModel { paste_markers: Seq::empty(), ..old(self)@ }),
    {
        self.paste_markers.clear();
    }

    /// Begin a thinking phase.
    pub fn begin_reasoning_phase(&mut self, now: u64)
        ensures
            final(self)@ == old(self)@.thinking_from(now),
    {
        self.reasoning_started = Some(now);
        self.reasoning_elapsed = None;
    }

    /// Reasoning is streaming: begin a phase where none has begun.
    pub fn note_reasoning(&mut self, now: u64)
        ensures
            final(self)@ == (ViewModel {
                reasoning_started: if old(self)@.reasoning_started is None {
                    Some(now)
                } else {
                    old(self)@.reasoning_started
                },
                ..old(self)@
            }),
    {
        if self.reasoning_started.is_none() {
            self.reasoning_started = Some(now);
        }
    }

    /// Freeze the thinking time when answer text starts.
    pub fn finish_reasoning(&mut self, now: u64)
        ensures
            final(self)@ == old(self)@.thought_until(now),
    {
        if self.current_reasoning.as_str().is_empty() || self.reasoning_elapsed.is_some() {
            return;
        }
        self.reasoning_elapsed = Some(elapsed_since(self.reasoning_started, now));
    }

    fn drop_targets(&mut self)
        ensures
            final(self)@ == old(self)@.without_targets(),
    {
        self.reasoning_hitboxes.clear();
        self.tool_hitboxes.clear();
    }

    /// Move the rows at or behind `threshold` down by `n`.
    fn shift_rows_down(&mut self, threshold: usize, n: usize)
        ensures
            final(self)@ == old(self)@.rows_down(threshold as int, n as int),
    {
        shift_reasoning(&mut self.reasoning_blocks, threshold, n, true);
        shift_tools(&mut self.tool_blocks, threshold, n, true);
        assert(self@ =~= old(self)@.rows_down(threshold as int, n as int));
    }

    /// Move the rows at or behind `threshold` up by `n`.
    fn shift_rows_up(&mut self, threshold: usize, n: usize)
        ensures
            final(self)@ == old(self)@.rows_up(threshold as int, n as int),
    {
        shift_reasoning(&mut self.reasoning_blocks, threshold, n, false);
        shift_tools(&mut self.tool_blocks, threshold, n, false);
        assert(self@ =~= old(self)@.rows_up(threshold as int, n as int));
    }

    /// Replace the row at `s` and open lines below it.
    fn open_at(&mut self, s: usize, row: Line, body: Vec<Line>)
        requires
            s < old(self).transcript@.len(),
        ensures
            final(self)@ == old(self)@.opened(s as int, row@, line_views(body@)),
    {
        let n: usize = body.len();
        let len: usize = self.transcript.len();
        assert(s < len);
        let mut with: Vec<Line> = one_line(row);
        append_lines(&mut with, body);
        splice_lines(&mut self.transcript, s, 1, with);
        self.shift_rows_down(s + 1, n);
        self.drop_targets();
    }

    /// Replace the row at `s` and close the lines below it.
    fn close_at(&mut self, s: usize, row: Line, n: usize)
        requires
            s < old(self).transcript@.len(),
        ensures
            final(self)@ == old(self)@.closed(s as int, row@, n as int),
    {
        let len: usize = self.transcript.len();
        let end: usize = (s + 1).saturating_add(n);
        let shown: usize = if end < len {
            n
        } else {
            len - s - 1
        };
        splice_lines(&mut self.transcript, s, 1 + shown, one_line(row));
        self.shift_rows_up(end, n);
        self.drop_targets();
    }

    /// Open or close the reasoning block `i` in place.
    pub fn toggle_reasoning(&mut self, i: usize, p: Palette) -> (r: Option<TranscriptToggle>)
        ensures
            match old(self)@.toggled_reasoning(i as int, p) {
                Some(m) => final(self)@ == m && r == Some(
                    TranscriptToggle {
                        summary_index: old(self).reasoning_blocks@[i as int].summary_index,
                        expanded: !old(self).reasoning_blocks@[i as int].expanded,
                    },
                ),
                None => final(self)@ == old(self)@ && r is None,
            },
    {
        if i >= self.reasoning_blocks.len() {
            return None;
        }
        let ghost m0 = self@;
        let ghost before = reasoning_views(self.reasoning_blocks@);
        assert(before[i as int] == self.reasoning_blocks@[i as int]@);
        let s: usize = self.reasoning_blocks[i].summary_index;
        if s >= self.transcript.len() {
            return None;
        }
        let was: bool = self.reasoning_blocks[i].expanded;
        let n: usize = self.reasoning_blocks[i].body.len();
        let row: Line = reasoning_summary_line(self.reasoning_blocks[i].elapsed, !was, p);
        self.reasoning_blocks[i].expanded = !was;
        assert(reasoning_views(self.reasoning_blocks@) =~= before.update(
            i as int,
            ReasoningView { expanded: !was, ..before[i as int] },
        ));
        if was {
            self.close_at(s, row, n);
        } else {
            let body: Vec<Line> = copy_lines(self.reasoning_blocks[i].body.as_slice());
            self.open_at(s, row, body);
        }
        Some(TranscriptToggle { summary_index: s, expanded: !was })
    }

    /// Open or close the most recent reasoning block.
    pub fn toggle_latest_reasoning(&mut self, p: Palette) -> (r: Option<TranscriptToggle>)
        ensures
            match old(self)@.toggled_reasoning(old(self)@.reasoning_blocks.len() - 1, p) {
                Some(m) => final(self)@ == m && r is Some && r->0.expanded
                    == !old(self)@.reasoning_blocks.last().expanded && r->0.summary_index
                    == old(self)@.reasoning_blocks.last().summary_index,
                None => final(self)@ == old(self)@ && r is None,
            },
    {
        let n: usize = self.reasoning_blocks.len();
        if n == 0 {
            return None;
        }
        assert(self@.reasoning_blocks.last() == self.reasoning_blocks@[n - 1]@);
        self.toggle_reasoning(n - 1, p)
    }

    /// Open or close the reasoning block whose row is under the cell.
    pub fn toggle_reasoning_at(&mut self, column: u16, row: u16, p: Palette) -> (r: Option<
        TranscriptToggle,
    >)
        ensures
            match target_from(old(self)@.reasoning_hitboxes, column, row, 0) {
                Some(b) => match old(self)@.toggled_reasoning(b, p) {
                    Some(m) => final(self)@ == m && r is Some && r->0.summary_index
                        == old(self)@.reasoning_blocks[b].summary_index && r->0.expanded
                        == !old(self)@.reasoning_blocks[b].expanded,
                    None => final(self)@ == old(self)@ && r is None,
                },
                None => final(self)@ == old(self)@ && r is None,
            },
    {
        match find_target(&self.reasoning_hitboxes, column, row) {
            Some(b) => {
                assert(b < self.reasoning_blocks@.len() ==> self@.reasoning_blocks[b as int]
                    == self.reasoning_blocks@[b as int]@);
                self.toggle_reasoning(b, p)
            },
            None => None,
        }
    }

    /// Replace the live range of a finished tool call by one row that keeps the
    /// whole call behind it. Gives how many rows have gone.
    pub fn replace_with_tool_block(
        &mut self,
        start: usize,
        len: usize,
        collapsed_line: Line,
        expanded_line: Line,
        body: Vec<Line>,
    ) -> (removed: usize)
        requires
            start + len <= old(self).transcript@.len(),
        ensures
            final(self)@ == old(self)@.with_tool_block(
                start as int,
                len as int,
                collapsed_line@,
                expanded_line@,
                line_views(body@),
            ),
            removed == (if len > 0 {
                len - 1
            } else {
                0
            }),
    {
        let row: Line = collapsed_line.clone();
        let total: usize = self.transcript.len();
        assert(start + len <= total);
        splice_lines(&mut self.transcript, start, len, one_line(row));
        let removed: usize = len.saturating_sub(1);
        if removed > 0 {
            self.shift_rows_up(start + len, removed);
        }
        let block = ToolBlock {
            summary_index: start,
            body,
            collapsed_line,
            expanded_line,
            expanded: false,
        };
        let ghost bv = block@;
        let ghost before = tool_views(self.tool_blocks@);
        self.tool_blocks.push(block);
        assert(tool_views(self.tool_blocks@) =~= before.push(bv));
        self.drop_targets();
        removed
    }

    /// Take the live range of a successful tool call out of the transcript.
    pub fn remove_transcript_range(&mut self, start: usize, len: usize) -> (removed: usize)
        requires
            len == 0 || start + len <= old(self).transcript@.len(),
        ensures
            removed == len,
            final(self)@ == old(self)@.without_range(start as int, len as int),
    {
        if len == 0 {
            return 0;
        }
        let none: Vec<Line> = Vec::new();
        assert(line_views(none@) =~= Seq::<LineView>::empty());
        let total: usize = self.transcript.len();
        assert(start + len <= total);
        splice_lines(&mut self.transcript, start, len, none);
        self.shift_rows_up(start + len, len);
        self.drop_targets();
        len
    }

    /// Keep a tool call that never had a live range behind a row at the end.
    pub fn push_tool_block(&mut self, collapsed_line: Line, expanded_line: Line, body: Vec<Line>)
        ensures
            final(self)@ == old(self)@.with_tool_at_end(
                collapsed_line@,
                expanded_line@,
                line_views(body@),
            ),
    {
        let summary_index: usize = self.transcript.len();
        self.tell(collapsed_line.clone());
        let block = ToolBlock {
            summary_index,
            body,
            collapsed_line,
            expanded_line,
            expanded: false,
        };
        let ghost bv = block@;
        let ghost before = tool_views(self.tool_blocks@);
        self.tool_blocks.push(block);
        assert(tool_views(self.tool_blocks@) =~= before.push(bv));
        self.drop_targets();
    }

    /// Open or close the tool block `i` in place.
    pub fn toggle_tool(&mut self, i: usize) -> (r: Option<TranscriptToggle>)
        ensures
            match old(self)@.toggled_tool(i as int) {
                Some(m) => final(self)@ == m && r == Some(
                    TranscriptToggle {
                        summary_index: old(self).tool_blocks@[i as int].summary_index,
                        expanded: !old(self).tool_blocks@[i as int].expanded,
                    },
                ),
                None => final(self)@ == old(self)@ && r is None,
            },
    {
        if i >= self.tool_blocks.len() {
            return None;
        }
        let ghost before = tool_views(self.tool_blocks@);
        assert(before[i as int] == self.tool_blocks@[i as int]@);
        let s: usize = self.tool_blocks[i].summary_index;
        if s >= self.transcript.len() {
            return None;
        }
        let was: bool = self.tool_blocks[i].expanded;
        let n: usize = self.tool_blocks[i].body.len();
        let row: Line = if was {
            self.tool_blocks[i].collapsed_line.clone()
        } else {
            self.tool_blocks[i].expanded_line.clone()
        };
        self.tool_blocks[i].expanded = !was;
        assert(tool_views(self.tool_blocks@) =~= before.update(
            i as int,
            ToolView { expanded: !was, ..before[i as int] },
        ));
        if was {
            self.close_at(s, row, n);
        } else {
            let body: Vec<Line> = copy_lines(self.tool_blocks[i].body.as_slice());
            self.open_at(s, row, body);
        }
        Some(TranscriptToggle { summary_index: s, expanded: !was })
    }

    /// Open or close the tool block whose row is under the cell.
    pub fn toggle_tool_at(&mut self, column: u16, row: u16) -> (r: Option<TranscriptToggle>)
        ensures
            match target_from(old(self)@.tool_hitboxes, column, row, 0) {
                Some(b) => match old(self)@.toggled_tool(b) {
                    Some(m) => final(self)@ == m && r is Some && r->0.summary_index
                        == old(self)@.tool_blocks[b].summary_index && r->0.expanded
                        == !old(self)@.tool_blocks[b].expanded,
                    None => final(self)@ == old(self)@ && r is None,
                },
                None => final(self)@ == old(self)@ && r is None,
            },
    {
        match find_target(&self.tool_hitboxes, column, row) {
            Some(b) => {
                assert(b < self.tool_blocks@.len() ==> self@.tool_blocks[b as int]
                    == self.tool_blocks@[b as int]@);
                self.toggle_tool(b)
            },
            None => None,
        }
    }

    /// Clear the transcript together with what stands behind its rows.
    pub fn clear_transcript(&mut self)
        ensures
            final(self)@ == old(self)@.cleared(),
    {
        self.transcript.clear();
        self.reasoning_blocks.clear();
        self.tool_blocks.clear();
        self.drop_targets();
        assert(self@ =~= old(self)@.cleared());
    }

    /// Move a turn's reasoning and answer to the transcript.
    fn add_turn(&mut self, reasoning: &str, text: &str, elapsed: Option<u64>, p: Palette)
        ensures
            final(self)@ == old(self)@.with_turn(reasoning@, text@, elapsed, p),
    {
        if !reasoning.is_empty() {
            let summary_index: usize = self.transcript.len();
            self.tell(reasoning_summary_line(elapsed, false, p));
            let block = ReasoningBlock {
                summary_index,
                body: reasoning_body_lines(reasoning, p),
                elapsed,
                expanded: false,
            };
            let ghost bv = block@;
            let ghost before = reasoning_views(self.reasoning_blocks@);
            self.reasoning_blocks.push(block);
            assert(reasoning_views(self.reasoning_blocks@) =~= before.push(bv));
            if !text.is_empty() {
                self.tell(Line::blank());
            }
        }
        if !text.is_empty() {
            append_lines(&mut self.transcript, parse_assistant_output(text, p));
        }
    }

    /// Move what has streamed to the transcript: the answer as markdown, the
    /// reasoning behind a closed row with its time.
    pub fn flush_text_at(&mut self, now: u64, p: Palette)
        ensures
            final(self)@ == old(self)@.flushed(now, p),
    {
        proof {
            reveal(ViewModel::flushed);
        }
        if self.current_text.as_str().is_empty() && self.current_reasoning.as_str().is_empty() {
            return;
        }
        let ghost m0 = self@;
        self.finish_reasoning(now);
        let elapsed: u64 = match self.reasoning_elapsed {
            Some(e) => e,
            None => 0,
        };
        let text: String = self.current_text.clone();
        let reasoning: String = self.current_reasoning.clone();
        self.add_turn(reasoning.as_str(), text.as_str(), Some(elapsed), p);
        self.current_text = String::new();
        self.current_reasoning = String::new();
        self.current_parsed.clear();
        self.current_dirty = false;
        self.reasoning_started = None;
        self.reasoning_elapsed = None;
        assert(self@ =~= m0.flushed(now, p));
    }

    /// Rebuild one finished assistant turn from a stored session, which does not
    /// say how long the thinking took.
    pub fn restore_assistant_turn(&mut self, reasoning: Option<&str>, text: &str, p: Palette)
        ensures
            final(self)@ == old(self)@.with_turn(
                match reasoning {
                    Some(r) => r@,
                    None => Seq::empty(),
                },
                text@,
                None,
                p,
            ),
    {
        match reasoning {
            Some(r) => self.add_turn(r, text, None, p),
            None => {
                let none: String = String::new();
                assert(none@ =~= Seq::<char>::empty());
                self.add_turn(none.as_str(), text, None, p);
            },
        }
    }
}

// ---- what every edit of the transcript keeps --------------------------------
/// A row of the transcript that opens and closes, with what it shows.
#[verifier::ext_equal]
pub struct Block {
    /// Where its row stands.
    pub at: int,
    /// Its row.
    pub face: LineView,
    /// The lines open below it.
    pub shown: Seq<LineView>,
}

impl Block {
    /// Where its lines end.
    pub open spec fn end(self) -> int {
        self.at + 1 + self.shown.len()
    }

    /// The transcript has the row, and what is open, where the block says.
    pub open spec fn sits_in(self, t: Seq<LineView>) -> bool {
        0 <= self.at && self.end() <= t.len() && t[self.at] == self.face && t.subrange(
            self.at + 1,
            self.end(),
        ) == self.shown
    }

    /// The lines of two blocks are apart.
    pub open spec fn apart(self, other: Block) -> bool {
        self.end() <= other.at || other.end() <= self.at
    }

    /// The block with its row moved by `delta` where it is at or behind `from`.
    pub open spec fn shifted(self, from: int, delta: int) -> Block {
        Block {
            at: if self.at >= from {
                self.at + delta
            } else {
                self.at
            },
            ..self
        }
    }
}

impl ReasoningView {
    /// The block as a row that opens and closes.
    pub open spec fn block(self, p: Palette) -> Block {
        Block {
            at: self.summary_index,
            face: thought_line(self.elapsed, self.expanded, p),
            shown: if self.expanded {
                self.body
            } else {
                Seq::empty()
            },
        }
    }
}

impl ToolView {
    /// The block as a row that opens and closes.
    pub open spec fn block(self) -> Block {
        Block {
            at: self.summary_index,
            face: self.face(),
            shown: if self.expanded {
                self.body
            } else {
                Seq::empty()
            },
        }
    }
}

/// Every block sits where it says and no two share a line.
pub open spec fn placed(t: Seq<LineView>, bs: Seq<Block>) -> bool {
    &&& forall|i: int| 0 <= i < bs.len() ==> (#[trigger] bs[i]).sits_in(t)
    &&& forall|i: int, j: int|
        0 <= i < bs.len() && 0 <= j < bs.len() && i != j ==> (#[trigger] bs[i]).apart(
            #[trigger] bs[j],
        )
}

impl ViewModel {
    /// Every row that opens and closes: those of reasoning, then those of tools.
    pub open spec fn all_blocks(self, p: Palette) -> Seq<Block> {
        self.reasoning_blocks.map_values(|b: ReasoningView| b.block(p))
            + self.tool_blocks.map_values(|b: ToolView| b.block())
    }

    /// The rows that open and close are where the blocks say, and so is what is
    /// open below them.
    pub open spec fn in_step(self, p: Palette) -> bool {
        self.transcript.len() <= usize::MAX && placed(self.transcript, self.all_blocks(p))
    }
}

/// Replacing lines that no block owns keeps the blocks in place, those behind
/// them moved along.
proof fn lemma_edit_between(t: Seq<LineView>, bs: Seq<Block>, at: int, n: int, with: Seq<LineView>)
    requires
        placed(t, bs),
        0 <= at,
        0 <= n,
        at + n <= t.len(),
        forall|i: int|
            0 <= i < bs.len() ==> (#[trigger] bs[i]).end() <= at || bs[i].at >= at + n,
    ensures
        placed(
            spliced(t, at, n, with),
            bs.map_values(|b: Block| b.shifted(at + n, with.len() - n)),
        ),
{
    let u = spliced(t, at, n, with);
    let cs = bs.map_values(|b: Block| b.shifted(at + n, with.len() - n));
    assert forall|i: int| 0 <= i < cs.len() implies (#[trigger] cs[i]).sits_in(u) by {
        let b = bs[i];
        assert(b.sits_in(t));
        let c = cs[i];
        if b.at >= at + n {
            assert(u[c.at] == t[b.at]);
            assert(u.subrange(c.at + 1, c.end()) =~= t.subrange(b.at + 1, b.end()));
        } else {
            assert(u[c.at] == t[b.at]);
            assert(u.subrange(c.at + 1, c.end()) =~= t.subrange(b.at + 1, b.end()));
        }
    }
    assert forall|i: int, j: int| 0 <= i < cs.len() && 0 <= j < cs.len() && i != j implies (
    #[trigger] cs[i]).apart(#[trigger] cs[j]) by {
        assert(bs[i].apart(bs[j]));
        assert(bs[i].end() <= at || bs[i].at >= at + n);
        assert(bs[j].end() <= at || bs[j].at >= at + n);
    }
}

/// Changing what one block shows keeps every block in place.
proof fn lemma_edit_block(t: Seq<LineView>, bs: Seq<Block>, i: int, c: Block)
    requires
        placed(t, bs),
        0 <= i < bs.len(),
        c.at == bs[i].at,
    ensures
        placed(
            spliced(t, c.at, bs[i].end() - c.at, seq![c.face] + c.shown),
            bs.map_values(|b: Block| b.shifted(bs[i].end(), c.end() - bs[i].end())).update(i, c),
        ),
{
    let b = bs[i];
    let with = seq![c.face] + c.shown;
    let u = spliced(t, c.at, b.end() - c.at, with);
    let cs = bs.map_values(|x: Block| x.shifted(b.end(), c.end() - b.end())).update(i, c);
    assert(b.sits_in(t));
    assert forall|k: int| 0 <= k < cs.len() implies (#[trigger] cs[k]).sits_in(u) by {
        if k == i {
            assert(u[c.at] == c.face);
            assert(u.subrange(c.at + 1, c.end()) =~= c.shown);
        } else {
            let x = bs[k];
            assert(x.sits_in(t));
            assert(x.apart(b));
            let y = cs[k];
            assert(u[y.at] == t[x.at]);
            assert(u.subrange(y.at + 1, y.end()) =~= t.subrange(x.at + 1, x.end()));
        }
    }
    assert forall|k: int, j: int| 0 <= k < cs.len() && 0 <= j < cs.len() && k != j implies (
    #[trigger] cs[k]).apart(#[trigger] cs[j]) by {
        assert(bs[k].apart(bs[j]));
        if k != i {
            assert(bs[k].apart(b));
        }
        if j != i {
            assert(bs[j].apart(b));
        }
    }
}

/// A block at the end of a longer transcript joins those in place.
proof fn lemma_new_block(t: Seq<LineView>, bs: Seq<Block>, rest: Seq<LineView>, b: Block)
    requires
        placed(t, bs),
        b.at == t.len(),
        b.sits_in(t + rest),
    ensures
        placed(t + rest, bs.push(b)),
{
    let u = t + rest;
    let cs = bs.push(b);
    assert forall|i: int| 0 <= i < cs.len() implies (#[trigger] cs[i]).sits_in(u) by {
        if i < bs.len() {
            let x = bs[i];
            assert(x.sits_in(t));
            assert(u[x.at] == t[x.at]);
            assert(u.subrange(x.at + 1, x.end()) =~= t.subrange(x.at + 1, x.end()));
        }
    }
    assert forall|i: int, j: int| 0 <= i < cs.len() && 0 <= j < cs.len() && i != j implies (
    #[trigger] cs[i]).apart(#[trigger] cs[j]) by {
        if i < bs.len() && j < bs.len() {
            assert(bs[i].apart(bs[j]));
        } else if i < bs.len() {
            assert(bs[i].sits_in(t));
        } else {
            assert(bs[j].sits_in(t));
        }
    }
}

/// Opening or closing reasoning keeps every row and everything open in its
/// place, as long as the machine can count the lines.
pub proof fn toggling_reasoning_keeps_the_rows_in_step(m: ViewModel, i: int, p: Palette)
    requires
        m.in_step(p),
        m.toggled_reasoning(i, p) is Some,
        m.toggled_reasoning(i, p)->0.transcript.len() <= usize::MAX,
        0 <= i,
    ensures
        m.toggled_reasoning(i, p)->0.in_step(p),
{
    let b = m.reasoning_blocks[i];
    let n = m.toggled_reasoning(i, p)->0;
    let bs = m.all_blocks(p);
    let c = ReasoningView { expanded: !b.expanded, ..b };
    assert(bs[i] == b.block(p));
    assert(bs[i].sits_in(m.transcript));
    lemma_edit_block(m.transcript, bs, i, c.block(p));
    let u = spliced(
        m.transcript,
        b.summary_index,
        b.block(p).end() - b.summary_index,
        seq![c.block(p).face] + c.block(p).shown,
    );
    let cs = bs.map_values(
        |x: Block| x.shifted(b.block(p).end(), c.block(p).end() - b.block(p).end()),
    ).update(i, c.block(p));
    if b.expanded {
        assert(seq![c.block(p).face] + c.block(p).shown =~= seq![c.block(p).face]);
    }
    assert(n.transcript =~= u);
    lemma_all_in_range(m, p);
    assert forall|k: int| 0 <= k < cs.len() implies #[trigger] n.all_blocks(p)[k] == cs[k] by {
        assert(bs[k].sits_in(m.transcript));
        assert(cs[k].sits_in(u));
        if k != i {
            assert(bs[k].apart(bs[i]));
        }
        if k < m.reasoning_blocks.len() {
            assert(bs[k] == m.reasoning_blocks[k].block(p));
            assert(n.all_blocks(p)[k] == n.reasoning_blocks[k].block(p));
        } else {
            let q = k - m.reasoning_blocks.len();
            assert(bs[k] == m.tool_blocks[q].block());
            assert(n.all_blocks(p)[k] == n.tool_blocks[q].block());
        }
    }
    assert(n.all_blocks(p) =~= cs);
}

/// Opening or closing a tool call keeps every row and everything open in its
/// place, as long as the machine can count the lines.
pub proof fn toggling_a_tool_keeps_the_rows_in_step(m: ViewModel, i: int, p: Palette)
    requires
        m.in_step(p),
        m.toggled_tool(i) is Some,
        m.toggled_tool(i)->0.transcript.len() <= usize::MAX,
        0 <= i,
    ensures
        m.toggled_tool(i)->0.in_step(p),
{
    let b = m.tool_blocks[i];
    let n = m.toggled_tool(i)->0;
    let bs = m.all_blocks(p);
    let at = m.reasoning_blocks.len() + i;
    let c = ToolView { expanded: !b.expanded, ..b };
    assert(bs[at] == b.block());
    assert(bs[at].sits_in(m.transcript));
    lemma_edit_block(m.transcript, bs, at, c.block());
    let u = spliced(
        m.transcript,
        b.summary_index,
        b.block().end() - b.summary_index,
        seq![c.block().face] + c.block().shown,
    );
    let cs = bs.map_values(
        |x: Block| x.shifted(b.block().end(), c.block().end() - b.block().end()),
    ).update(at, c.block());
    if b.expanded {
        assert(seq![c.block().face] + c.block().shown =~= seq![c.block().face]);
    }
    assert(n.transcript =~= u);
    lemma_all_in_range(m, p);
    assert forall|k: int| 0 <= k < cs.len() implies #[trigger] n.all_blocks(p)[k] == cs[k] by {
        assert(bs[k].sits_in(m.transcript));
        assert(cs[k].sits_in(u));
        if k != at {
            assert(bs[k].apart(bs[at]));
        }
        if k < m.reasoning_blocks.len() {
            assert(bs[k] == m.reasoning_blocks[k].block(p));
            assert(n.all_blocks(p)[k] == n.reasoning_blocks[k].block(p));
        } else {
            let q = k - m.reasoning_blocks.len();
            assert(bs[k] == m.tool_blocks[q].block());
            assert(n.all_blocks(p)[k] == n.tool_blocks[q].block());
        }
    }
    assert(n.all_blocks(p) =~= cs);
}

/// The rows of blocks in place are inside the transcript.
proof fn lemma_all_in_range(m: ViewModel, p: Palette)
    requires
        m.in_step(p),
    ensures
        forall|k: int|
            0 <= k < m.reasoning_blocks.len() ==> 0 <= (
            #[trigger] m.reasoning_blocks[k]).summary_index < m.transcript.len(),
        forall|k: int|
            0 <= k < m.tool_blocks.len() ==> 0 <= (#[trigger] m.tool_blocks[k]).summary_index
                < m.transcript.len(),
{
    let bs = m.all_blocks(p);
    assert forall|k: int| 0 <= k < m.reasoning_blocks.len() implies 0 <= (
    #[trigger] m.reasoning_blocks[k]).summary_index < m.transcript.len() by {
        assert(bs[k] == m.reasoning_blocks[k].block(p));
        assert(bs[k].sits_in(m.transcript));
    }
    assert forall|k: int| 0 <= k < m.tool_blocks.len() implies 0 <= (
    #[trigger] m.tool_blocks[k]).summary_index < m.transcript.len() by {
        let q = m.reasoning_blocks.len() + k;
        assert(bs[q] == m.tool_blocks[k].block());
        assert(bs[q].sits_in(m.transcript));
    }
}

/// Every row lies inside the transcript and none inside a range.
pub open spec fn rows_outside(m: ViewModel, from: int, to: int) -> bool {
    &&& forall|k: int|
        0 <= k < m.reasoning_blocks.len() ==> {
            let i = (#[trigger] m.reasoning_blocks[k]).summary_index;
            0 <= i < m.transcript.len() && !(from <= i < to)
        }
    &&& forall|k: int|
        0 <= k < m.tool_blocks.len() ==> {
            let i = (#[trigger] m.tool_blocks[k]).summary_index;
            0 <= i < m.transcript.len() && !(from <= i < to)
        }
}

/// Closing what was just opened leaves only the row changed.
proof fn lemma_open_close(m: ViewModel, s: int, row: LineView, body: Seq<LineView>, row2: LineView)
    requires
        0 <= s < m.transcript.len(),
        m.transcript.len() + body.len() <= usize::MAX,
        rows_outside(m, 0, 0),
    ensures
        m.opened(s, row, body).closed(s, row2, body.len() as int) == (ViewModel {
            transcript: m.transcript.update(s, row2),
            ..m
        }).without_targets(),
{
    let n = body.len() as int;
    let a = m.opened(s, row, body);
    let b = a.closed(s, row2, n);
    assert(a.transcript.len() == m.transcript.len() + n);
    assert(b.transcript =~= m.transcript.update(s, row2));
    assert forall|k: int| 0 <= k < m.reasoning_blocks.len() implies #[trigger] b.reasoning_blocks[k]
        == m.reasoning_blocks[k] by {
        let i = m.reasoning_blocks[k].summary_index;
        assert(a.reasoning_blocks[k].summary_index == moved_down(i, s + 1, n));
    }
    assert(b.reasoning_blocks =~= m.reasoning_blocks);
    assert forall|k: int| 0 <= k < m.tool_blocks.len() implies #[trigger] b.tool_blocks[k]
        == m.tool_blocks[k] by {
        let i = m.tool_blocks[k].summary_index;
        assert(a.tool_blocks[k].summary_index == moved_down(i, s + 1, n));
    }
    assert(b.tool_blocks =~= m.tool_blocks);
}

/// Opening what was just closed leaves only the row changed.
proof fn lemma_close_open(m: ViewModel, s: int, row: LineView, body: Seq<LineView>, row2: LineView)
    requires
        0 <= s,
        s + 1 + body.len() <= m.transcript.len() <= usize::MAX,
        m.transcript.subrange(s + 1, s + 1 + body.len()) == body,
        rows_outside(m, s + 1, s + 1 + body.len()),
    ensures
        m.closed(s, row, body.len() as int).opened(s, row2, body) == (ViewModel {
            transcript: m.transcript.update(s, row2),
            ..m
        }).without_targets(),
{
    let n = body.len() as int;
    let a = m.closed(s, row, n);
    let b = a.opened(s, row2, body);
    let t = m.transcript;
    assert(a.transcript =~= t.take(s) + seq![row] + t.skip(s + 1 + n));
    assert(b.transcript =~= t.take(s) + (seq![row2] + body) + t.skip(s + 1 + n));
    assert(b.transcript =~= t.update(s, row2)) by {
        assert forall|k: int| 0 <= k < t.len() implies #[trigger] b.transcript[k] == t.update(
            s,
            row2,
        )[k] by {
            if s < k < s + 1 + n {
                assert(body[k - s - 1] == t.subrange(s + 1, s + 1 + n)[k - s - 1]);
            }
        }
    }
    assert forall|k: int| 0 <= k < m.reasoning_blocks.len() implies #[trigger] b.reasoning_blocks[k]
        == m.reasoning_blocks[k] by {
        let i = m.reasoning_blocks[k].summary_index;
        assert(a.reasoning_blocks[k].summary_index == moved_up(i, s + 1 + n, n));
    }
    assert(b.reasoning_blocks =~= m.reasoning_blocks);
    assert forall|k: int| 0 <= k < m.tool_blocks.len() implies #[trigger] b.tool_blocks[k]
        == m.tool_blocks[k] by {
        let i = m.tool_blocks[k].summary_index;
        assert(a.tool_blocks[k].summary_index == moved_up(i, s + 1 + n, n));
    }
    assert(b.tool_blocks =~= m.tool_blocks);
}

/// The rows other than those of one block are outside its lines.
proof fn lemma_rows_outside(m: ViewModel, which: int, p: Palette)
    requires
        m.in_step(p),
        0 <= which < m.all_blocks(p).len(),
    ensures
        rows_outside(m, m.all_blocks(p)[which].at + 1, m.all_blocks(p)[which].end()),
        rows_outside(m, 0, 0),
{
    let bs = m.all_blocks(p);
    lemma_all_in_range(m, p);
    assert forall|k: int| 0 <= k < m.reasoning_blocks.len() implies {
        let i = (#[trigger] m.reasoning_blocks[k]).summary_index;
        0 <= i < m.transcript.len() && !(bs[which].at + 1 <= i < bs[which].end())
    } by {
        assert(bs[k] == m.reasoning_blocks[k].block(p));
        if k != which {
            assert(bs[k].apart(bs[which]));
        }
    }
    assert forall|k: int| 0 <= k < m.tool_blocks.len() implies {
        let i = (#[trigger] m.tool_blocks[k]).summary_index;
        0 <= i < m.transcript.len() && !(bs[which].at + 1 <= i < bs[which].end())
    } by {
        let q = m.reasoning_blocks.len() + k;
        assert(bs[q] == m.tool_blocks[k].block());
        if q != which {
            assert(bs[q].apart(bs[which]));
        }
    }
}

/// Toggling reasoning twice gives back the transcript and every row; only the
/// click targets of the last frame are gone.
pub proof fn toggling_reasoning_twice_restores(m: ViewModel, i: int, p: Palette)
    requires
        m.in_step(p),
        0 <= i < m.reasoning_blocks.len(),
        m.transcript.len() + m.reasoning_blocks[i].body.len() <= usize::MAX,
    ensures
        ({
            let once = m.toggled_reasoning(i, p);
            once is Some && once->0.toggled_reasoning(i, p) == Some(m.without_targets())
        }),
{
    lemma_all_in_range(m, p);
    let b = m.reasoning_blocks[i];
    let s = b.summary_index;
    let n = b.body.len() as int;
    let bs = m.all_blocks(p);
    assert(bs[i] == b.block(p));
    assert(bs[i].sits_in(m.transcript));
    lemma_rows_outside(m, i, p);
    let c = ReasoningView { expanded: !b.expanded, ..b };
    let flipped = ViewModel { reasoning_blocks: m.reasoning_blocks.update(i, c), ..m };
    let once = m.toggled_reasoning(i, p)->0;
    assert(once.reasoning_blocks[i] == c);
    assert(flipped.reasoning_blocks.update(i, b) =~= m.reasoning_blocks);
    let row = thought_line(b.elapsed, !b.expanded, p);
    let row2 = thought_line(b.elapsed, b.expanded, p);
    assert(m.transcript.update(s, row2) =~= m.transcript);
    let back = ViewModel { reasoning_blocks: once.reasoning_blocks.update(i, b), ..once };
    if b.expanded {
        assert(back.reasoning_blocks =~= m.closed(s, row, n).reasoning_blocks);
        assert(back == m.closed(s, row, n));
        lemma_close_open(m, s, row, b.body, row2);
    } else {
        assert(back.reasoning_blocks =~= m.opened(s, row, b.body).reasoning_blocks);
        assert(back == m.opened(s, row, b.body));
        lemma_open_close(m, s, row, b.body, row2);
    }
}

/// Toggling a tool call twice gives back the transcript and every row; only the
/// click targets of the last frame are gone.
pub proof fn toggling_a_tool_twice_restores(m: ViewModel, i: int, p: Palette)
    requires
        m.in_step(p),
        0 <= i < m.tool_blocks.len(),
        m.transcript.len() + m.tool_blocks[i].body.len() <= usize::MAX,
    ensures
        ({
            let once = m.toggled_tool(i);
            once is Some && once->0.toggled_tool(i) == Some(m.without_targets())
        }),
{
    lemma_all_in_range(m, p);
    let b = m.tool_blocks[i];
    let s = b.summary_index;
    let n = b.body.len() as int;
    let bs = m.all_blocks(p);
    let at = m.reasoning_blocks.len() + i;
    assert(bs[at] == b.block());
    assert(bs[at].sits_in(m.transcript));
    lemma_rows_outside(m, at, p);
    let c = ToolView { expanded: !b.expanded, ..b };
    let once = m.toggled_tool(i)->0;
    assert(once.tool_blocks[i] == c);
    assert(m.transcript.update(s, b.face()) =~= m.transcript);
    let back = ViewModel { tool_blocks: once.tool_blocks.update(i, b), ..once };
    if b.expanded {
        assert(back.tool_blocks =~= m.closed(s, c.face(), n).tool_blocks);
        assert(back == m.closed(s, c.face(), n));
        lemma_close_open(m, s, c.face(), b.body, b.face());
    } else {
        assert(back.tool_blocks =~= m.opened(s, c.face(), b.body).tool_blocks);
        assert(back == m.opened(s, c.face(), b.body));
        lemma_open_close(m, s, c.face(), b.body, b.face());
    }
}

/// The lines of a range belong to no row that opens and closes.
pub open spec fn free_range(m: ViewModel, start: int, len: int, p: Palette) -> bool {
    0 <= start && 0 <= len && start + len <= m.transcript.len() && forall|i: int|
        0 <= i < m.all_blocks(p).len() ==> (#[trigger] m.all_blocks(p)[i]).end() <= start
            || m.all_blocks(p)[i].at >= start + len
}

/// Where the rows are after a range was taken out.
pub proof fn lemma_rows_without_range(m: ViewModel, start: int, len: int, p: Palette)
    requires
        m.in_step(p),
        len > 0,
        free_range(m, start, len, p),
    ensures
        m.without_range(start, len).all_blocks(p) == m.all_blocks(p).map_values(
            |b: Block| b.shifted(start + len, 0 - len),
        ),
        m.without_range(start, len).transcript == spliced(
            m.transcript,
            start,
            len,
            Seq::empty(),
        ),
{
    let n = m.without_range(start, len);
    let bs = m.all_blocks(p);
    let cs = bs.map_values(|b: Block| b.shifted(start + len, 0 - len));
    lemma_all_in_range(m, p);
    assert forall|k: int| 0 <= k < cs.len() implies #[trigger] n.all_blocks(p)[k] == cs[k] by {
        assert(bs[k].sits_in(m.transcript));
        if k < m.reasoning_blocks.len() {
            assert(bs[k] == m.reasoning_blocks[k].block(p));
            assert(n.all_blocks(p)[k] == n.reasoning_blocks[k].block(p));
        } else {
            let q = k - m.reasoning_blocks.len();
            assert(bs[k] == m.tool_blocks[q].block());
            assert(n.all_blocks(p)[k] == n.tool_blocks[q].block());
        }
    }
    assert(n.all_blocks(p) =~= cs);
    assert(n.transcript =~= spliced(m.transcript, start, len, Seq::empty()));
}

/// Taking out a range that belongs to no row keeps the rows in step.
pub proof fn removing_a_range_keeps_the_rows_in_step(m: ViewModel, start: int, len: int, p: Palette)
    requires
        m.in_step(p),
        free_range(m, start, len, p),
    ensures
        m.without_range(start, len).in_step(p),
{
    if len > 0 {
        lemma_edit_between(m.transcript, m.all_blocks(p), start, len, Seq::empty());
        lemma_rows_without_range(m, start, len, p);
    }
}

/// Where the rows are after a tool row took the place of a range.
pub proof fn lemma_rows_with_tool(
    m: ViewModel,
    start: int,
    len: int,
    collapsed: LineView,
    expanded: LineView,
    body: Seq<LineView>,
    p: Palette,
)
    requires
        m.in_step(p),
        len > 0,
        free_range(m, start, len, p),
    ensures
        m.with_tool_block(start, len, collapsed, expanded, body).all_blocks(p) == m.all_blocks(
            p,
        ).map_values(|b: Block| b.shifted(start + len, 1 - len)).push(
            Block { at: start, face: collapsed, shown: Seq::empty() },
        ),
        m.with_tool_block(start, len, collapsed, expanded, body).transcript == spliced(
            m.transcript,
            start,
            len,
            seq![collapsed],
        ),
{
    let n = m.with_tool_block(start, len, collapsed, expanded, body);
    let bs = m.all_blocks(p);
    let cs = bs.map_values(|b: Block| b.shifted(start + len, 1 - len));
    assert(n.transcript =~= spliced(m.transcript, start, len, seq![collapsed]));
    lemma_all_in_range(m, p);
    let nb = Block { at: start, face: collapsed, shown: Seq::empty() };
    let r = m.reasoning_blocks.len() as int;
    let all = n.all_blocks(p);
    assert(all.len() == cs.len() + 1);
    assert forall|k: int| 0 <= k < cs.len() implies #[trigger] all[k] == cs[k] by {
        assert(bs[k].sits_in(m.transcript));
        if k < r {
            assert(bs[k] == m.reasoning_blocks[k].block(p));
            assert(all[k] == n.reasoning_blocks[k].block(p));
        } else {
            assert(bs[k] == m.tool_blocks[k - r].block());
            assert(all[k] == n.tool_blocks[k - r].block());
        }
    }
    assert(all[cs.len() as int] == nb) by {
        assert(all[cs.len() as int] == n.tool_blocks[cs.len() - r].block());
    }
    assert(all =~= cs.push(nb));
}

/// Putting a tool row in place of a range that belongs to no row keeps the rows
/// in step, the new one among them.
pub proof fn replacing_a_range_keeps_the_rows_in_step(
    m: ViewModel,
    start: int,
    len: int,
    collapsed: LineView,
    expanded: LineView,
    body: Seq<LineView>,
    p: Palette,
)
    requires
        m.in_step(p),
        len > 0,
        free_range(m, start, len, p),
    ensures
        m.with_tool_block(start, len, collapsed, expanded, body).in_step(p),
{
    let n = m.with_tool_block(start, len, collapsed, expanded, body);
    let bs = m.all_blocks(p);
    let with = seq![collapsed];
    lemma_edit_between(m.transcript, bs, start, len, with);
    lemma_rows_with_tool(m, start, len, collapsed, expanded, body, p);
    let cs = bs.map_values(|b: Block| b.shifted(start + len, 1 - len));
    let u = spliced(m.transcript, start, len, with);
    let nb = Block { at: start, face: collapsed, shown: Seq::empty() };
    let all = n.all_blocks(p);
    assert(nb.sits_in(u)) by {
        assert(u[start] == collapsed);
        assert(u.subrange(start + 1, start + 1) =~= Seq::<LineView>::empty());
    }
    assert forall|k: int| 0 <= k < all.len() implies (#[trigger] all[k]).sits_in(u) by {
        if k < cs.len() {
            assert(cs[k].sits_in(u));
        }
    }
    assert forall|i: int, j: int| 0 <= i < all.len() && 0 <= j < all.len() && i != j implies (
    #[trigger] all[i]).apart(#[trigger] all[j]) by {
        if i < cs.len() && j < cs.len() {
            assert(cs[i].apart(cs[j]));
        } else if i < cs.len() {
            assert(bs[i].end() <= start || bs[i].at >= start + len);
        } else {
            assert(bs[j].end() <= start || bs[j].at >= start + len);
        }
    }
}

/// A turn that is moved to the transcript leaves its reasoning behind a row that
/// is in step with the others.
pub proof fn a_new_turn_keeps_the_rows_in_step(
    m: ViewModel,
    reasoning: Seq<char>,
    text: Seq<char>,
    elapsed: Option<u64>,
    p: Palette,
)
    requires
        m.in_step(p),
        m.with_turn(reasoning, text, elapsed, p).transcript.len() <= usize::MAX,
    ensures
        m.with_turn(reasoning, text, elapsed, p).in_step(p),
{
    let n = m.with_turn(reasoning, text, elapsed, p);
    let t = m.transcript;
    let bs = m.all_blocks(p);
    let rest = n.transcript.skip(t.len() as int);
    assert(n.transcript =~= t + rest);
    let r = m.reasoning_blocks.len() as int;
    let all = n.all_blocks(p);
    let nb = Block { at: t.len() as int, face: thought_line(elapsed, false, p), shown: Seq::empty() };
    if reasoning.len() == 0 {
        assert(all =~= bs);
        assert forall|k: int| 0 <= k < all.len() implies (#[trigger] all[k]).sits_in(
            n.transcript,
        ) by {
            assert(bs[k].sits_in(t));
            assert(n.transcript.subrange(bs[k].at + 1, bs[k].end()) =~= t.subrange(
                bs[k].at + 1,
                bs[k].end(),
            ));
        }
    } else {
        assert(n.transcript[t.len() as int] == thought_line(elapsed, false, p));
        assert(nb.sits_in(t + rest)) by {
            assert((t + rest).subrange(nb.at + 1, nb.end()) =~= Seq::<LineView>::empty());
        }
        lemma_new_block(t, bs, rest, nb);
        let cs = bs.push(nb);
        // The new block stands behind the other reasoning blocks and before the tools.
        assert(all.len() == cs.len());
        assert forall|k: int| 0 <= k < all.len() implies #[trigger] all[k] == (if k < r {
            cs[k]
        } else if k == r {
            cs[bs.len() as int]
        } else {
            cs[k - 1]
        }) by {
            if k < r {
                assert(all[k] == n.reasoning_blocks[k].block(p));
                assert(bs[k] == m.reasoning_blocks[k].block(p));
            } else if k == r {
                assert(all[k] == n.reasoning_blocks[k].block(p));
            } else {
                assert(all[k] == n.tool_blocks[k - r - 1].block());
                assert(bs[k - 1] == m.tool_blocks[k - r - 1].block());
            }
        }
        assert forall|k: int| 0 <= k < all.len() implies (#[trigger] all[k]).sits_in(
            n.transcript,
        ) by {
            let q = if k < r {
                k
            } else if k == r {
                bs.len() as int
            } else {
                k - 1
            };
            assert(cs[q].sits_in(t + rest));
        }
        assert forall|i: int, j: int| 0 <= i < all.len() && 0 <= j < all.len() && i != j implies (
        #[trigger] all[i]).apart(#[trigger] all[j]) by {
            let a = if i < r {
                i
            } else if i == r {
                bs.len() as int
            } else {
                i - 1
            };
            let b = if j < r {
                j
            } else if j == r {
                bs.len() as int
            } else {
                j - 1
            };
            assert(cs[a].apart(cs[b]));
        }
    }
}

} // verus!
