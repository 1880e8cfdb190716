//! The course of a turn: its start and end, the calls in flight, the files that
//! it changes, and turns restored from a stored session.
use crate::diff::{
    file_diff_lines,
    file_lines,
    line_diff,
    line_stats,
    lossy,
    stats_of,
    text_or_empty,
    word_diff,
    word_diff_line,
    word_line,
    DiffStats,
};
use crate::fit::{capped, divider, line_cells, line_width, turn_divider_line};
use crate::paths::{is_same_place, path_from, path_seen_from, same_place};
use crate::report::{
    call_fields,
    call_in,
    call_summary,
    detail_rows,
    edit_in,
    edit_of,
    error_block,
    error_rows,
    prompt_line,
    start_line,
    summary_line,
    summary_of,
    tool_result_detail_lines,
    tool_start_line,
    tool_summary_line,
    turn_duration,
    turn_duration_label,
    user_prompt_line,
    CallFields,
    CallView,
    ResultView,
    ToolResultBody,
};
use crate::styled::{
    append_lines,
    blank_line,
    copy_lines,
    line_views,
    styled_line,
    Line,
    LineView,
};
use crate::text::{chars_of, same, text_option, trim, trim_of};
use crate::theme::Palette;
use crate::view::{
    bytes_option,
    change_views,
    elapsed_since,
    free_range,
    lemma_rows_with_tool,
    lemma_rows_without_range,
    removing_a_range_keeps_the_rows_in_step,
    replacing_a_range_keeps_the_rows_in_step,
    since,
    spliced,
    FileChange,
    FileChangeView,
    Usage,
    ViewModel,
    ViewState,
};
use vstd::prelude::*;
use vstd::slice::slice_subrange;
use vstd::string::*;

verus! {

// ---- start and end ----------------------------------------------------------
/// The text of a file's contents.
pub open spec fn contents_text(b: Option<Seq<u8>>) -> Seq<char> {
    match b {
        Some(v) => lossy(v),
        None => Seq::empty(),
    }
}

/// How many lines of a file came and went.
pub open spec fn change_stats(c: FileChangeView) -> DiffStats {
    stats_of(line_diff(contents_text(c.before), contents_text(c.after)))
}

/// How many lines came and went in the first `n` files together.
pub open spec fn net_stats(v: Seq<FileChangeView>, n: nat) -> DiffStats
    decreases n,
{
    if n == 0 {
        DiffStats { added: 0, removed: 0 }
    } else {
        let before = net_stats(v, (n - 1) as nat);
        let one = change_stats(v[n - 1]);
        DiffStats {
            added: capped((before.added + one.added) as nat) as usize,
            removed: capped((before.removed + one.removed) as nat) as usize,
        }
    }
}

fn contents(b: &Option<Vec<u8>>) -> (r: Option<&[u8]>)
    ensures
        text_or_empty(r) == contents_text(bytes_option(*b)),
{
    match b {
        Some(v) => Some(v.as_slice()),
        None => None,
    }
}

fn net_changes(v: &Vec<FileChange>) -> (r: DiffStats)
    ensures
        r == net_stats(change_views(v@), v@.len()),
{
    let ghost all = change_views(v@);
    let mut added: usize = 0;
    let mut removed: usize = 0;
    let mut i: usize = 0;
    while i < v.len()
        invariant
            i <= v@.len(),
            all == change_views(v@),
            (DiffStats { added, removed }) == net_stats(all, i as nat),
        decreases v@.len() - i,
    {
        assert(all[i as int] == v@[i as int]@);
        let one: DiffStats = line_stats(contents(&v[i].before), contents(&v[i].after));
        added = added.saturating_add(one.added);
        removed = removed.saturating_add(one.removed);
        i += 1;
    }
    DiffStats { added, removed }
}

impl ViewModel {
    /// A turn marked as running from `now`.
    #[verifier::opaque]
    pub open spec fn begun(self, now: u64) -> ViewModel {
        ViewModel {
            busy: true,
            turn_started: Some(now),
            running: 0,
            running_tool: None,
            stream_chars: 0,
            stream_started: None,
            context_tokens: None,
            context_tokens_estimated: false,
            cache_hit_rate: None,
            ..self
        }.thinking_from(now)
    }

    /// No turn runs.
    pub open spec fn at_rest(self) -> ViewModel {
        ViewModel {
            busy: false,
            turn_started: None,
            turn_file_changes: Seq::empty(),
            running: 0,
            running_tool: None,
            stream_chars: 0,
            stream_started: None,
            current_parsed: Seq::empty(),
            current_dirty: false,
            current_reasoning: Seq::empty(),
            reasoning_started: None,
            reasoning_elapsed: None,
            ..self
        }
    }

    /// The turn over: at rest, and a divider with the time and the changed lines
    /// where a turn was running.
    pub open spec fn finished(self, now: u64, p: Palette) -> ViewModel {
        let stats = net_stats(self.turn_file_changes, self.turn_file_changes.len());
        let m = self.at_rest();
        match self.turn_started {
            None => m,
            Some(s) => {
                let n = if m.transcript.len() > 0 && line_cells(m.transcript.last()) > 0 {
                    m.told(blank_line())
                } else {
                    m
                };
                n.told(
                    divider(
                        turn_duration(since(Some(s), now)),
                        stats.added as nat,
                        stats.removed as nat,
                        p,
                    ),
                )
            },
        }
    }

    /// Answer text counted for the streaming rate.
    pub open spec fn streamed(self, chars: nat, now: u64) -> ViewModel {
        ViewModel {
            stream_started: if self.stream_started is None {
                Some(now)
            } else {
                self.stream_started
            },
            stream_chars: if self.stream_chars + chars > u64::MAX {
                u64::MAX
            } else {
                (self.stream_chars + chars) as u64
            },
            ..self
        }
    }

    /// Where a file stands among those changed, from `i` on.
    pub open spec fn change_of(v: Seq<FileChangeView>, path: Seq<char>, i: int) -> Option<int>
        decreases v.len() - i,
    {
        if i < 0 || i >= v.len() {
            None
        } else if same_place(v[i].path, path) {
            Some(i)
        } else {
            Self::change_of(v, path, i + 1)
        }
    }

    /// A changed file shown, and counted once for the turn: from what it first
    /// held to what it holds now.
    #[verifier::opaque]
    pub open spec fn changed(
        self,
        cwd: Seq<char>,
        path: Seq<char>,
        before: Option<Seq<u8>>,
        after: Option<Seq<u8>>,
        p: Palette,
    ) -> ViewModel {
        let shown = file_lines(
            path_from(path, cwd),
            line_diff(contents_text(before), contents_text(after)),
            p,
        );
        let v = self.turn_file_changes;
        ViewModel {
            transcript: self.transcript + shown,
            turn_file_changes: match Self::change_of(v, path, 0) {
                Some(i) => v.update(i, FileChangeView { after, ..v[i] }),
                None => v.push(FileChangeView { path, before, after }),
            },
            ..self
        }
    }
}

impl ViewState {
    /// Mark a turn as running, so that it shows at once.
    pub fn begin_turn_display(&mut self, now: u64)
        ensures
            final(self)@ == old(self)@.begun(now),
    {
        proof {
            reveal(ViewModel::begun);
        }
        self.busy = true;
        self.turn_started = Some(now);
        self.running = 0;
        self.running_tool = None;
        self.stream_chars = 0;
        self.stream_started = None;
        self.context_tokens = None;
        self.context_tokens_estimated = false;
        self.cache_hit_rate = None;
        self.begin_reasoning_phase(now);
    }

    /// Reset what belongs to a turn, without a trace in the transcript.
    pub fn reset_turn(&mut self)
        ensures
            final(self)@ == old(self)@.at_rest(),
    {
        self.busy = false;
        self.turn_started = None;
        self.turn_file_changes.clear();
        self.running = 0;
        self.running_tool = None;
        self.stream_chars = 0;
        self.stream_started = None;
        self.current_parsed.clear();
        self.current_dirty = false;
        self.current_reasoning = String::new();
        self.reasoning_started = None;
        self.reasoning_elapsed = None;
        assert(self@ =~= old(self)@.at_rest());
    }

    /// Finish a turn: once, however often its end is reported.
    pub fn finish_turn_at(&mut self, now: u64, p: Palette)
        ensures
            final(self)@ == old(self)@.finished(now, p),
    {
        let started: Option<u64> = self.turn_started;
        let stats: DiffStats = net_changes(&self.turn_file_changes);
        self.reset_turn();
        match started {
            None => {},
            Some(s) => {
                let n: usize = self.transcript.len();
                if n > 0 {
                    assert(self@.transcript.last() == self.transcript@[n - 1]@);
                    if line_width(&self.transcript[n - 1]) > 0 {
                        self.tell(Line::blank());
                    }
                }
                let label: String = turn_duration_label(elapsed_since(Some(s), now));
                self.tell(turn_divider_line(label.as_str(), stats.added, stats.removed, p));
            },
        }
    }

    /// Count answer text for the streaming rate.
    pub fn track_stream(&mut self, delta: &str, now: u64)
        ensures
            final(self)@ == old(self)@.streamed(delta@.len(), now),
    {
        if self.stream_started.is_none() {
            self.stream_started = Some(now);
        }
        let n: usize = delta.unicode_len();
        self.stream_chars = self.stream_chars.saturating_add(n as u64);
    }

    fn find_change(&self, path: &str) -> (r: Option<usize>)
        ensures
            match r {
                Some(i) => ViewModel::change_of(self@.turn_file_changes, path@, 0) == Some(i as int)
                    && i < self.turn_file_changes@.len(),
                None => ViewModel::change_of(self@.turn_file_changes, path@, 0) is None,
            },
    {
        let ghost v = self@.turn_file_changes;
        let mut i: usize = 0;
        while i < self.turn_file_changes.len()
            invariant
                i <= self.turn_file_changes@.len(),
                v == self@.turn_file_changes,
                ViewModel::change_of(v, path@, 0) == ViewModel::change_of(v, path@, i as int),
            decreases self.turn_file_changes@.len() - i,
        {
            assert(v[i as int] == self.turn_file_changes@[i as int]@);
            if is_same_place(self.turn_file_changes[i].path.as_str(), path) {
                return Some(i);
            }
            i += 1;
        }
        None
    }

    /// Show a changed file, and keep the turn's net change of it.
    pub fn show_artifact(
        &mut self,
        cwd: &str,
        path: String,
        before: Option<Vec<u8>>,
        after: Option<Vec<u8>>,
        p: Palette,
    )
        ensures
            final(self)@ == old(self)@.changed(
                cwd@,
                path@,
                bytes_option(before),
                bytes_option(after),
                p,
            ),
    {
        proof {
            reveal(ViewModel::changed);
        }
        let shown: String = path_seen_from(path.as_str(), cwd);
        let (lines, _stats): (Vec<Line>, DiffStats) = file_diff_lines(
            shown.as_str(),
            contents(&before),
            contents(&after),
            p,
        );
        let at: Option<usize> = self.find_change(path.as_str());
        append_lines(&mut self.transcript, lines);
        let ghost v = change_views(self.turn_file_changes@);
        match at {
            Some(i) => {
                let ghost av = bytes_option(after);
                self.turn_file_changes[i].after = after;
                assert(change_views(self.turn_file_changes@) =~= v.update(
                    i as int,
                    FileChangeView { after: av, ..v[i as int] },
                ));
            },
            None => {
                let c = FileChange { path, before, after };
                let ghost cv = c@;
                self.turn_file_changes.push(c);
                assert(change_views(self.turn_file_changes@) =~= v.push(cv));
            },
        }
    }
}

/// A finished turn leaves one divider: finishing again changes nothing.
pub proof fn finishing_twice_is_finishing_once(m: ViewModel, now: u64, later: u64, p: Palette)
    ensures
        m.finished(now, p).finished(later, p) == m.finished(now, p),
{
    let n = m.finished(now, p);
    assert(n.turn_started is None);
    assert(n.at_rest() =~= n);
}

/// Every change of a file counts from what it held first: a second change only
/// replaces what it holds now, and no file is counted twice.
pub proof fn a_file_is_counted_once(
    m: ViewModel,
    cwd: Seq<char>,
    path: Seq<char>,
    a: Option<Seq<u8>>,
    b: Option<Seq<u8>>,
    c: Option<Seq<u8>>,
    p: Palette,
)
    requires
        ViewModel::change_of(m.turn_file_changes, path, 0) is None,
    ensures
        m.changed(cwd, path, a, b, p).changed(cwd, path, b, c, p).turn_file_changes
            == m.turn_file_changes.push(FileChangeView { path, before: a, after: c }),
{
    reveal(ViewModel::changed);
    let v = m.turn_file_changes;
    let w = v.push(FileChangeView { path, before: a, after: b });
    lemma_change_of_push(v, path, FileChangeView { path, before: a, after: b }, 0);
    assert(w.update(v.len() as int, FileChangeView { path, before: a, after: c }) =~= v.push(
        FileChangeView { path, before: a, after: c },
    ));
}

proof fn lemma_change_of_push(v: Seq<FileChangeView>, path: Seq<char>, c: FileChangeView, i: int)
    requires
        0 <= i <= v.len(),
        ViewModel::change_of(v, path, i) is None,
        c.path == path,
    ensures
        ViewModel::change_of(v.push(c), path, i) == Some(v.len() as int),
    decreases v.len() - i,
{
    if i < v.len() {
        assert(v.push(c)[i] == v[i]);
        lemma_change_of_push(v, path, c, i + 1);
    } else {
        assert(v.push(c)[i] == c);
    }
}

// ---- calls in flight --------------------------------------------------------
/// A tool call in flight, and the lines of the transcript that it takes.
#[derive(Debug, PartialEq, Eq)]
pub struct LiveTool {
    pub id: String,
    pub start: usize,
    pub len: usize,
    pub tool: String,
    pub started: u64,
}

/// What such a call holds.
#[verifier::ext_equal]
pub struct LiveView {
    pub id: Seq<char>,
    pub start: int,
    pub len: int,
    pub tool: Seq<char>,
    pub started: u64,
}

impl View for LiveTool {
    type V = LiveView;

    open spec fn view(&self) -> LiveView {
        LiveView {
            id: self.id@,
            start: self.start as int,
            len: self.len as int,
            tool: self.tool@,
            started: self.started,
        }
    }
}

/// What some calls hold.
pub open spec fn live_views(v: Seq<LiveTool>) -> Seq<LiveView> {
    v.map_values(|t: LiveTool| t@)
}

/// The first call from `i` on with an id.
pub open spec fn live_from(v: Seq<LiveView>, id: Seq<char>, i: int) -> Option<int>
    decreases v.len() - i,
{
    if i < 0 || i >= v.len() {
        None
    } else if v[i].id == id {
        Some(i)
    } else {
        live_from(v, id, i + 1)
    }
}

/// The calls with those that start at or behind `end` moved up by `n`.
pub open spec fn live_moved_up(v: Seq<LiveView>, end: int, n: int) -> Seq<LiveView> {
    v.map_values(
        |t: LiveView|
            LiveView {
                start: if t.start >= end {
                    if t.start < n {
                        0
                    } else {
                        t.start - n
                    }
                } else {
                    t.start
                },
                ..t
            },
    )
}

/// A call that had no lines, kept behind a row at the end unless it succeeded.
pub open spec fn told_of_call(
    m: ViewModel,
    tool: Seq<char>,
    r: ResultView,
    elapsed: u64,
    p: Palette,
) -> ViewModel {
    if r is Success {
        m
    } else {
        m.with_tool_at_end(
            summary_line(tool, r, elapsed, false, p),
            summary_line(tool, r, elapsed, true, p),
            detail_rows(r, p),
        )
    }
}

/// Call `i` finished: a successful one leaves nothing, any other a row with the
/// whole call behind it; calls below move up.
pub open spec fn collapsed_at(
    m: ViewModel,
    live: Seq<LiveView>,
    i: int,
    r: ResultView,
    now: u64,
    p: Palette,
) -> (ViewModel, Seq<LiveView>) {
    let b = live[i];
    let rest = live.remove(i);
    let end = b.start + b.len;
    let elapsed = since(Some(b.started), now);
    if b.len == 0 || end > m.transcript.len() {
        (told_of_call(m, b.tool, r, elapsed, p), rest)
    } else if r is Success {
        (m.without_range(b.start, b.len), live_moved_up(rest, end, b.len))
    } else {
        (
            m.with_tool_block(
                b.start,
                b.len,
                summary_line(b.tool, r, elapsed, false, p),
                summary_line(b.tool, r, elapsed, true, p),
                m.transcript.subrange(b.start, end) + detail_rows(r, p),
            ),
            if b.len > 1 {
                live_moved_up(rest, end, b.len - 1)
            } else {
                rest
            },
        )
    }
}

/// The call with an id finished. One that was never seen to start took no time.
pub open spec fn collapsed(
    m: ViewModel,
    live: Seq<LiveView>,
    id: Seq<char>,
    fallback: Seq<char>,
    r: ResultView,
    now: u64,
    p: Palette,
) -> (ViewModel, Seq<LiveView>) {
    match live_from(live, id, 0) {
        Some(i) => collapsed_at(m, live, i, r, now, p),
        None => (told_of_call(m, fallback, r, 0, p), live),
    }
}

/// The call that starts last among the first `n`, the first of those that share
/// the place.
pub open spec fn latest(live: Seq<LiveView>, n: int) -> int
    decreases n,
{
    if n <= 1 {
        0
    } else {
        let before = latest(live, n - 1);
        if live[n - 1].start > live[before].start {
            n - 1
        } else {
            before
        }
    }
}

/// The call that starts last is one of them.
pub proof fn lemma_latest(live: Seq<LiveView>, n: int)
    requires
        1 <= n <= live.len(),
    ensures
        0 <= latest(live, n) < n,
        forall|k: int| 0 <= k < n ==> (#[trigger] live[k]).start <= live[latest(live, n)].start,
    decreases n,
{
    if n > 1 {
        lemma_latest(live, n - 1);
    }
}

/// Every call in flight interrupted, from the bottom of the transcript up.
pub open spec fn all_collapsed(m: ViewModel, live: Seq<LiveView>, now: u64, p: Palette) -> ViewModel
    decreases live.len(),
{
    if live.len() == 0 {
        m
    } else {
        proof {
            lemma_latest(live, live.len() as int);
        }
        let (n, rest) = collapsed_at(
            m,
            live,
            latest(live, live.len() as int),
            ResultView::Interrupted,
            now,
            p,
        );
        all_collapsed(n, rest, now, p)
    }
}

fn find_live(live: &Vec<LiveTool>, id: &str) -> (r: Option<usize>)
    ensures
        match r {
            Some(i) => live_from(live_views(live@), id@, 0) == Some(i as int) && i < live@.len(),
            None => live_from(live_views(live@), id@, 0) is None,
        },
{
    let ghost v = live_views(live@);
    let mut i: usize = 0;
    while i < live.len()
        invariant
            i <= live@.len(),
            v == live_views(live@),
            live_from(v, id@, 0) == live_from(v, id@, i as int),
        decreases live@.len() - i,
    {
        assert(v[i as int] == live@[i as int]@);
        if same(live[i].id.as_str(), id) {
            return Some(i);
        }
        i += 1;
    }
    None
}

/// Whether a call with an id is in flight.
pub fn is_live(live: &Vec<LiveTool>, id: &str) -> (r: bool)
    ensures
        r == (live_from(live_views(live@), id@, 0) is Some),
{
    match find_live(live, id) {
        Some(_) => true,
        None => false,
    }
}

fn move_live_up(live: &mut Vec<LiveTool>, end: usize, n: usize)
    ensures
        live_views(final(live)@) == live_moved_up(live_views(old(live)@), end as int, n as int),
        final(live)@.len() == old(live)@.len(),
{
    let ghost start = live_views(live@);
    let ghost want = live_moved_up(start, end as int, n as int);
    let mut i: usize = 0;
    while i < live.len()
        invariant
            i <= live@.len(),
            live@.len() == start.len(),
            want == live_moved_up(start, end as int, n as int),
            forall|k: int| 0 <= k < i ==> (#[trigger] live@[k])@ == want[k],
            forall|k: int| i <= k < live@.len() ==> (#[trigger] live@[k])@ == start[k],
        decreases live@.len() - i,
    {
        let ghost before = live@;
        assert(live@[i as int]@ == start[i as int]);
        let at: usize = live[i].start;
        if at >= end {
            live[i].start = at.saturating_sub(n);
        }
        assert(live@[i as int]@ =~= want[i as int]);
        assert(forall|k: int| 0 <= k < live@.len() && k != i ==> #[trigger] live@[k] == before[k]);
        i += 1;
    }
    assert(live_views(live@) =~= want);
}

/// Keep a call that had no lines behind a row at the end, unless it succeeded.
fn tell_of_call(view: &mut ViewState, tool: &str, r: &ToolResultBody, elapsed: u64, p: Palette)
    ensures
        final(view)@ == told_of_call(old(view)@, tool@, r@, elapsed, p),
{
    match r {
        ToolResultBody::Success { .. } => {},
        _ => {
            view.push_tool_block(
                tool_summary_line(tool, r, elapsed, false, p),
                tool_summary_line(tool, r, elapsed, true, p),
                tool_result_detail_lines(r, p),
            );
        },
    }
}

/// Finish call `i`.
fn collapse_at(
    view: &mut ViewState,
    live: &mut Vec<LiveTool>,
    i: usize,
    r: &ToolResultBody,
    now: u64,
    p: Palette,
)
    requires
        i < old(live)@.len(),
    ensures
        (final(view)@, live_views(final(live)@)) == collapsed_at(
            old(view)@,
            live_views(old(live)@),
            i as int,
            r@,
            now,
            p,
        ),
        final(live)@.len() == old(live)@.len() - 1,
{
    let ghost m = view@;
    let ghost all = live_views(live@);
    assert(all[i as int] == live@[i as int]@);
    let b: LiveTool = live.remove(i);
    assert(live_views(live@) =~= all.remove(i as int));
    let elapsed: u64 = elapsed_since(Some(b.started), now);
    let total: usize = view.transcript.len();
    if b.len == 0 || b.start > total || b.len > total - b.start {
        tell_of_call(view, b.tool.as_str(), r, elapsed, p);
        return;
    }
    let end: usize = b.start + b.len;
    let succeeded: bool = match r {
        ToolResultBody::Success { .. } => true,
        _ => false,
    };
    if succeeded {
        let removed: usize = view.remove_transcript_range(b.start, b.len);
        move_live_up(live, end, removed);
        return;
    }
    let collapsed_line: Line = tool_summary_line(b.tool.as_str(), r, elapsed, false, p);
    let expanded_line: Line = tool_summary_line(b.tool.as_str(), r, elapsed, true, p);
    let lines: &[Line] = slice_subrange(view.transcript.as_slice(), b.start, end);
    let mut body: Vec<Line> = copy_lines(lines);
    assert(line_views(body@) =~= m.transcript.subrange(b.start as int, end as int));
    append_lines(&mut body, tool_result_detail_lines(r, p));
    let removed: usize = view.replace_with_tool_block(
        b.start,
        b.len,
        collapsed_line,
        expanded_line,
        body,
    );
    if removed > 0 {
        move_live_up(live, end, removed);
    }
}

/// Finish the call with an id: a successful one leaves nothing in the
/// transcript, any other one row with the whole call behind it.
pub fn collapse_tool_call(
    view: &mut ViewState,
    live: &mut Vec<LiveTool>,
    call_id: &str,
    fallback_tool: &str,
    r: &ToolResultBody,
    now: u64,
    p: Palette,
)
    ensures
        (final(view)@, live_views(final(live)@)) == collapsed(
            old(view)@,
            live_views(old(live)@),
            call_id@,
            fallback_tool@,
            r@,
            now,
            p,
        ),
{
    match find_live(live, call_id) {
        Some(i) => collapse_at(view, live, i, r, now, p),
        None => tell_of_call(view, fallback_tool, r, 0, p),
    }
}

fn latest_of(live: &Vec<LiveTool>) -> (r: usize)
    requires
        live@.len() > 0,
    ensures
        r == latest(live_views(live@), live@.len() as int),
        r < live@.len(),
{
    let ghost v = live_views(live@);
    let mut best: usize = 0;
    let mut n: usize = 1;
    while n < live.len()
        invariant
            1 <= n <= live@.len(),
            v == live_views(live@),
            best < n,
            best == latest(v, n as int),
        decreases live@.len() - n,
    {
        assert(v[n as int] == live@[n as int]@);
        assert(v[best as int] == live@[best as int]@);
        if live[n].start > live[best].start {
            best = n;
        }
        n += 1;
    }
    best
}

/// Interrupt every call in flight, so that no terminal turn leaves live lines
/// behind.
pub fn collapse_unfinished_tool_calls(
    view: &mut ViewState,
    live: &mut Vec<LiveTool>,
    now: u64,
    p: Palette,
)
    ensures
        final(view)@ == all_collapsed(old(view)@, live_views(old(live)@), now, p),
        final(live)@.len() == 0,
{
    let ghost want = all_collapsed(view@, live_views(live@), now, p);
    let r = ToolResultBody::Interrupted;
    while live.len() > 0
        invariant
            want == all_collapsed(view@, live_views(live@), now, p),
            r@ == ResultView::Interrupted,
        decreases live@.len(),
    {
        assert(live_views(live@).len() == live@.len());
        let i: usize = latest_of(live);
        collapse_at(view, live, i, &r, now, p);
    }
    assert(live_views(live@).len() == 0);
}

/// The rows are in step, and every call in flight has lines of its own.
pub open spec fn steady(m: ViewModel, live: Seq<LiveView>, p: Palette) -> bool {
    &&& m.in_step(p)
    &&& forall|i: int|
        0 <= i < live.len() ==> (#[trigger] live[i]).len > 0 && free_range(
            m,
            live[i].start,
            live[i].len,
            p,
        )
    &&& forall|i: int, j: int|
        0 <= i < live.len() && 0 <= j < live.len() && i != j ==> (#[trigger] live[i]).start
            + live[i].len <= (#[trigger] live[j]).start || live[j].start + live[j].len
            <= live[i].start
}

/// The lines of a call in flight.
pub open spec fn lines_of_call(m: ViewModel, t: LiveView) -> Seq<LineView> {
    m.transcript.subrange(t.start, t.start + t.len)
}

/// Taking out or shrinking the lines of one call leaves every other its own.
proof fn lemma_survivors(
    m: ViewModel,
    n: ViewModel,
    live: Seq<LiveView>,
    i: int,
    with: Seq<LineView>,
    gone: int,
    p: Palette,
)
    requires
        steady(m, live, p),
        0 <= i < live.len(),
        n.in_step(p),
        gone == live[i].len - with.len(),
        gone >= 0,
        n.transcript == spliced(m.transcript, live[i].start, live[i].len, with),
        forall|k: int|
            0 <= k < n.all_blocks(p).len() ==> ({
                let b = #[trigger] n.all_blocks(p)[k];
                (k < m.all_blocks(p).len() && b == m.all_blocks(p)[k].shifted(
                    live[i].start + live[i].len,
                    0 - gone,
                )) || (b.at == live[i].start && b.shown.len() == 0 && with.len() == 1)
            }),
    ensures
        ({
            let rest = live_moved_up(live.remove(i), live[i].start + live[i].len, gone);
            steady(n, rest, p) && forall|j: int|
                0 <= j < rest.len() ==> #[trigger] lines_of_call(n, rest[j]) == lines_of_call(
                    m,
                    live.remove(i)[j],
                )
        }),
{
    let b = live[i];
    let end = b.start + b.len;
    let others = live.remove(i);
    let rest = live_moved_up(others, end, gone);
    assert(free_range(m, b.start, b.len, p));
    assert forall|j: int| 0 <= j < others.len() implies {
        let t = #[trigger] others[j];
        &&& t.len > 0
        &&& free_range(m, t.start, t.len, p)
        &&& (t.start + t.len <= b.start || t.start >= end)
        &&& rest[j] == (LiveView {
            start: if t.start >= end {
                t.start - gone
            } else {
                t.start
            },
            ..t
        })
    } by {
        let k = if j < i {
            j
        } else {
            j + 1
        };
        assert(others[j] == live[k]);
        assert(live[k].start + live[k].len <= live[i].start || live[i].start + live[i].len
            <= live[k].start);
    }
    assert forall|j: int| 0 <= j < rest.len() implies (#[trigger] rest[j]).len > 0 && free_range(
        n,
        rest[j].start,
        rest[j].len,
        p,
    ) by {
        let t = others[j];
        assert forall|k: int| 0 <= k < n.all_blocks(p).len() implies (
        #[trigger] n.all_blocks(p)[k]).end() <= rest[j].start || n.all_blocks(p)[k].at
            >= rest[j].start + rest[j].len by {
            let c = n.all_blocks(p)[k];
            if k < m.all_blocks(p).len() && c == m.all_blocks(p)[k].shifted(end, 0 - gone) {
                let x = m.all_blocks(p)[k];
                assert(x.end() <= t.start || x.at >= t.start + t.len);
                assert(x.end() <= b.start || x.at >= end);
            }
        }
    }
    assert forall|j: int| 0 <= j < rest.len() implies #[trigger] lines_of_call(n, rest[j])
        == lines_of_call(m, others[j]) by {
        let t = others[j];
        assert(lines_of_call(n, rest[j]) =~= lines_of_call(m, t));
    }
    assert forall|j: int, k: int| 0 <= j < rest.len() && 0 <= k < rest.len() && j != k implies (
    #[trigger] rest[j]).start + rest[j].len <= (#[trigger] rest[k]).start || rest[k].start
        + rest[k].len <= rest[j].start by {
        let x = if j < i {
            j
        } else {
            j + 1
        };
        let y = if k < i {
            k
        } else {
            k + 1
        };
        assert(others[j] == live[x] && others[k] == live[y]);
        assert(live[x].start + live[x].len <= live[y].start || live[y].start + live[y].len
            <= live[x].start);
    }
}

/// Whatever becomes of one call, the rows stay in step, and every call that is
/// still in flight keeps its own lines, wherever they have moved.
pub proof fn ending_a_call_keeps_the_others(
    m: ViewModel,
    live: Seq<LiveView>,
    i: int,
    r: ResultView,
    now: u64,
    p: Palette,
)
    requires
        steady(m, live, p),
        0 <= i < live.len(),
    ensures
        ({
            let (n, rest) = collapsed_at(m, live, i, r, now, p);
            &&& steady(n, rest, p)
            &&& rest.len() == live.len() - 1
            &&& forall|j: int|
                0 <= j < rest.len() ==> #[trigger] lines_of_call(n, rest[j]) == lines_of_call(
                    m,
                    live.remove(i)[j],
                )
        }),
{
    let b = live[i];
    let end = b.start + b.len;
    let (n, rest) = collapsed_at(m, live, i, r, now, p);
    assert(free_range(m, b.start, b.len, p));
    if r is Success {
        removing_a_range_keeps_the_rows_in_step(m, b.start, b.len, p);
        lemma_rows_without_range(m, b.start, b.len, p);
        lemma_survivors(m, n, live, i, Seq::empty(), b.len, p);
    } else {
        let elapsed = since(Some(b.started), now);
        let short = summary_line(b.tool, r, elapsed, false, p);
        let long = summary_line(b.tool, r, elapsed, true, p);
        let body = m.transcript.subrange(b.start, end) + detail_rows(r, p);
        replacing_a_range_keeps_the_rows_in_step(m, b.start, b.len, short, long, body, p);
        lemma_rows_with_tool(m, b.start, b.len, short, long, body, p);
        lemma_survivors(m, n, live, i, seq![short], b.len - 1, p);
        if b.len == 1 {
            let others = live.remove(i);
            assert(live_moved_up(others, end, 0) =~= others) by {
                assert forall|j: int| 0 <= j < others.len() implies #[trigger] live_moved_up(
                    others,
                    end,
                    0,
                )[j] == others[j] by {
                    let k = if j < i {
                        j
                    } else {
                        j + 1
                    };
                    assert(others[j] == live[k]);
                    assert(free_range(m, live[k].start, live[k].len, p));
                }
            }
        }
    }
}

/// Interrupting every call in flight leaves the rows in step.
pub proof fn interrupting_every_call_keeps_the_rows_in_step(
    m: ViewModel,
    live: Seq<LiveView>,
    now: u64,
    p: Palette,
)
    requires
        steady(m, live, p),
    ensures
        all_collapsed(m, live, now, p).in_step(p),
    decreases live.len(),
{
    if live.len() > 0 {
        lemma_latest(live, live.len() as int);
        let i = latest(live, live.len() as int);
        ending_a_call_keeps_the_others(m, live, i, ResultView::Interrupted, now, p);
        let (n, rest) = collapsed_at(m, live, i, ResultView::Interrupted, now, p);
        interrupting_every_call_keeps_the_rows_in_step(n, rest, now, p);
    }
}

/// The lines of a call: what it is, and for an edit which words change.
pub open spec fn call_rows(name: Seq<char>, c: CallView, args: Seq<char>, p: Palette) -> Seq<
    LineView,
> {
    let first = seq![start_line(name, call_summary(c, args), p)];
    match edit_in(c) {
        Some((path, old, new)) => first + seq![
            styled_line("  ⤿ edit "@ + path, p.chrome()),
            word_line(word_diff(old, new), p),
        ],
        None => first,
    }
}

/// The lines of a call whose arguments have been read.
pub fn call_lines(name: &str, c: &CallFields, args: &str, p: Palette) -> (out: Vec<Line>)
    ensures
        line_views(out@) == call_rows(name@, c@, args@, p),
{
    let mut out: Vec<Line> = Vec::new();
    let summary: String = summary_of(c, args);
    out.push(tool_start_line(name, summary.as_str(), p));
    match edit_of(c) {
        Some((path, old, new)) => {
            let head: String = "  ⤿ edit ".to_owned().concat(path.as_str());
            out.push(Line::styled(head.as_str(), p.chrome()));
            out.push(word_diff_line(old.as_str(), new.as_str(), p));
        },
        None => {},
    }
    assert(line_views(out@) =~= call_rows(name@, c@, args@, p));
    out
}

impl ViewModel {
    /// The text before a call finished, and no clock running while it runs.
    pub open spec fn between_calls(self, now: u64, p: Palette) -> ViewModel {
        ViewModel {
            reasoning_started: None,
            reasoning_elapsed: None,
            stream_chars: 0,
            stream_started: None,
            ..self.flushed(now, p)
        }
    }

    /// A call in flight with an id interrupted, where there is one.
    pub open spec fn without_stale(
        self,
        live: Seq<LiveView>,
        id: Seq<char>,
        name: Seq<char>,
        now: u64,
        p: Palette,
    ) -> (ViewModel, Seq<LiveView>) {
        if live_from(live, id, 0) is Some {
            let (n, rest) = collapsed(self, live, id, name, ResultView::Interrupted, now, p);
            (ViewModel { running: one_less(n.running), ..n }, rest)
        } else {
            (self, live)
        }
    }

    /// A call has started: the text before it is finished, a stale call with its
    /// id interrupted, and its lines stand at the end.
    #[verifier::opaque]
    pub open spec fn call_started(
        self,
        live: Seq<LiveView>,
        id: Seq<char>,
        name: Seq<char>,
        rows: Seq<LineView>,
        now: u64,
        p: Palette,
    ) -> (ViewModel, Seq<LiveView>) {
        let (m, live) = self.between_calls(now, p).without_stale(live, id, name, now, p);
        (
            ViewModel {
                transcript: m.transcript + rows,
                running: one_more(m.running),
                running_tool: Some(name),
                ..m
            },
            live.push(
                LiveView {
                    id,
                    start: m.transcript.len() as int,
                    len: rows.len() as int,
                    tool: name,
                    started: now,
                },
            ),
        )
    }

    /// A call has ended; with the last one a thinking phase begins.
    #[verifier::opaque]
    pub open spec fn call_ended(
        self,
        live: Seq<LiveView>,
        id: Seq<char>,
        tool: Seq<char>,
        r: ResultView,
        now: u64,
        p: Palette,
    ) -> (ViewModel, Seq<LiveView>) {
        let (m, rest) = collapsed(self.flushed(now, p), live, id, tool, r, now, p);
        let n = ViewModel { running: one_less(m.running), ..m };
        (
            if n.running == 0 {
                ViewModel { running_tool: None, ..n }.thinking_from(now)
            } else {
                n
            },
            rest,
        )
    }

    /// The turn is over: what streamed is kept, no call stays in flight, and a
    /// failure is told before the divider.
    #[verifier::opaque]
    pub open spec fn wound_up(
        self,
        live: Seq<LiveView>,
        failure: Option<Seq<char>>,
        now: u64,
        p: Palette,
    ) -> ViewModel {
        let m = all_collapsed(self.flushed(now, p), live, now, p);
        let n = match failure {
            Some(e) => ViewModel { transcript: m.transcript + error_rows(e, p), ..m },
            None => m,
        };
        n.finished(now, p)
    }
}

/// One fewer, down to none.
pub open spec fn one_less(n: u32) -> u32 {
    if n == 0 {
        0
    } else {
        (n - 1) as u32
    }
}

/// One more, up to the most that can be counted.
pub open spec fn one_more(n: u32) -> u32 {
    if n == u32::MAX {
        n
    } else {
        (n + 1) as u32
    }
}

fn finish_text_before_call(view: &mut ViewState, now: u64, p: Palette)
    ensures
        final(view)@ == old(view)@.between_calls(now, p),
{
    view.flush_text_at(now, p);
    view.reasoning_started = None;
    view.reasoning_elapsed = None;
    view.stream_chars = 0;
    view.stream_started = None;
}

fn drop_stale(
    view: &mut ViewState,
    live: &mut Vec<LiveTool>,
    id: &str,
    name: &str,
    now: u64,
    p: Palette,
)
    ensures
        (final(view)@, live_views(final(live)@)) == old(view)@.without_stale(
            live_views(old(live)@),
            id@,
            name@,
            now,
            p,
        ),
{
    if is_live(live, id) {
        let r = ToolResultBody::Interrupted;
        collapse_tool_call(view, live, id, name, &r, now, p);
        view.running = view.running.saturating_sub(1);
    }
}

/// A call has started, and shows these lines.
pub fn start_call(
    view: &mut ViewState,
    live: &mut Vec<LiveTool>,
    id: String,
    name: String,
    rows: Vec<Line>,
    now: u64,
    p: Palette,
)
    ensures
        (final(view)@, live_views(final(live)@)) == old(view)@.call_started(
            live_views(old(live)@),
            id@,
            name@,
            line_views(rows@),
            now,
            p,
        ),
{
    proof {
        reveal(ViewModel::call_started);
    }
    finish_text_before_call(view, now, p);
    let ghost m = view@;
    let ghost was = live_views(live@);
    drop_stale(view, live, id.as_str(), name.as_str(), now, p);
    let ghost (n, rest) = m.without_stale(was, id@, name@, now, p);
    assert(view@ == n && live_views(live@) == rest);
    let start: usize = view.transcript.len();
    let len: usize = rows.len();
    assert(line_views(rows@).len() == len);
    append_lines(&mut view.transcript, rows);
    let ghost before = live_views(live@);
    let block = LiveTool { id, start, len, tool: name.clone(), started: now };
    let ghost b = block@;
    live.push(block);
    assert(live_views(live@) =~= before.push(b));
    view.running = view.running.saturating_add(1);
    view.running_tool = Some(name);
}

/// A call has ended.
pub fn end_call(
    view: &mut ViewState,
    live: &mut Vec<LiveTool>,
    call_id: &str,
    tool: &str,
    r: &ToolResultBody,
    now: u64,
    p: Palette,
)
    ensures
        (final(view)@, live_views(final(live)@)) == old(view)@.call_ended(
            live_views(old(live)@),
            call_id@,
            tool@,
            r@,
            now,
            p,
        ),
{
    proof {
        reveal(ViewModel::call_ended);
    }
    view.flush_text_at(now, p);
    collapse_tool_call(view, live, call_id, tool, r, now, p);
    view.running = view.running.saturating_sub(1);
    if view.running == 0 {
        view.running_tool = None;
        view.begin_reasoning_phase(now);
    }
}

/// The turn is over, for better or with a failure.
pub fn wind_up(
    view: &mut ViewState,
    live: &mut Vec<LiveTool>,
    failure: Option<String>,
    now: u64,
    p: Palette,
)
    ensures
        final(view)@ == old(view)@.wound_up(
            live_views(old(live)@),
            text_option(failure),
            now,
            p,
        ),
        final(live)@.len() == 0,
{
    proof {
        reveal(ViewModel::wound_up);
    }
    view.flush_text_at(now, p);
    collapse_unfinished_tool_calls(view, live, now, p);
    match failure {
        Some(e) => {
            append_lines(&mut view.transcript, error_block(e.as_str(), p));
        },
        None => {},
    }
    view.finish_turn_at(now, p);
}

// ---- a stored session -------------------------------------------------------
/// A tool call that the model announced.
#[derive(Debug, PartialEq, Eq)]
pub struct ToolCall {
    pub id: String,
    pub name: String,
    /// The arguments as the model wrote them.
    pub arguments: String,
}

/// What such a call holds.
#[verifier::ext_equal]
pub struct ToolCallView {
    pub id: Seq<char>,
    pub name: Seq<char>,
    pub arguments: Seq<char>,
}

impl View for ToolCall {
    type V = ToolCallView;

    open spec fn view(&self) -> ToolCallView {
        ToolCallView { id: self.id@, name: self.name@, arguments: self.arguments@ }
    }
}

impl Clone for ToolCall {
    fn clone(&self) -> (r: Self)
        ensures
            r@ == self@,
    {
        ToolCall {
            id: self.id.clone(),
            name: self.name.clone(),
            arguments: self.arguments.clone(),
        }
    }
}

/// What some calls hold.
pub open spec fn call_views(v: Seq<ToolCall>) -> Seq<ToolCallView> {
    v.map_values(|c: ToolCall| c@)
}

/// A turn of a stored session.
#[derive(Debug, PartialEq, Eq)]
pub enum Turn {
    User { content: String },
    Assistant {
        text: String,
        reasoning: Option<String>,
        calls: Vec<ToolCall>,
        usage: Option<Usage>,
    },
    ToolResult { call_id: String, tool: String, result: ToolResultBody, duration: u64 },
    /// A note; one about a change of mode is not shown.
    SystemNote { mode_change: bool, text: String },
    /// A model request that failed.
    Error { message: String },
    /// The turn was cancelled.
    Cancelled,
}

/// What a turn holds.
#[verifier::ext_equal]
pub enum TurnView {
    User { content: Seq<char> },
    Assistant {
        text: Seq<char>,
        reasoning: Option<Seq<char>>,
        calls: Seq<ToolCallView>,
        usage: Option<Usage>,
    },
    ToolResult { call_id: Seq<char>, tool: Seq<char>, result: ResultView, duration: u64 },
    SystemNote { mode_change: bool, text: Seq<char> },
    Error { message: Seq<char> },
    Cancelled,
}

impl View for Turn {
    type V = TurnView;

    open spec fn view(&self) -> TurnView {
        match self {
            Turn::User { content } => TurnView::User { content: content@ },
            Turn::Assistant { text, reasoning, calls, usage } => TurnView::Assistant {
                text: text@,
                reasoning: text_option(*reasoning),
                calls: call_views(calls@),
                usage: *usage,
            },
            Turn::ToolResult { call_id, tool, result, duration } => TurnView::ToolResult {
                call_id: call_id@,
                tool: tool@,
                result: result@,
                duration: *duration,
            },
            Turn::SystemNote { mode_change, text } => TurnView::SystemNote {
                mode_change: *mode_change,
                text: text@,
            },
            Turn::Error { message } => TurnView::Error { message: message@ },
            Turn::Cancelled => TurnView::Cancelled,
        }
    }
}

/// What some turns hold.
pub open spec fn turn_views(v: Seq<Turn>) -> Seq<TurnView> {
    v.map_values(|t: Turn| t@)
}

/// The announced calls, by id; a later one with the same id counts.
pub open spec fn announced(
    m: Map<Seq<char>, ToolCallView>,
    calls: Seq<ToolCallView>,
    n: nat,
) -> Map<Seq<char>, ToolCallView>
    decreases n,
{
    if n == 0 {
        m
    } else {
        announced(m, calls, (n - 1) as nat).insert(calls[n - 1].id, calls[n - 1])
    }
}

/// The usage that a request reported, shown as that of the last one.
pub open spec fn with_usage(m: ViewModel, u: Usage) -> ViewModel {
    ViewModel {
        context_tokens: Some(u.prompt_tokens),
        context_tokens_estimated: false,
        cache_hit_rate: u.cache_hit_rate,
        last_usage: Some(u),
        ..m
    }
}

/// A stored call that did not succeed, behind a closed row.
pub open spec fn with_stored_call(
    m: ViewModel,
    call: Option<ToolCallView>,
    tool: Seq<char>,
    r: ResultView,
    duration: u64,
    p: Palette,
) -> ViewModel {
    let name = match call {
        Some(c) => if trim(c.name).len() > 0 {
            c.name
        } else {
            tool
        },
        None => tool,
    };
    let rows = match call {
        Some(c) => call_rows(name, call_in(c.arguments), c.arguments, p),
        None => Seq::empty(),
    };
    m.with_tool_at_end(
        summary_line(name, r, duration, false, p),
        summary_line(name, r, duration, true, p),
        rows + detail_rows(r, p),
    )
}

/// A turn shown again, and the calls that have been announced and not answered.
pub open spec fn restored_turn(
    m: ViewModel,
    calls: Map<Seq<char>, ToolCallView>,
    t: TurnView,
    p: Palette,
) -> (ViewModel, Map<Seq<char>, ToolCallView>) {
    match t {
        TurnView::User { content } => (m.told(prompt_line(content, p)), calls),
        TurnView::Assistant { text, reasoning, calls: said, usage } => {
            let n = m.with_turn(
                match reasoning {
                    Some(r) => r,
                    None => Seq::empty(),
                },
                text,
                None,
                p,
            );
            (
                match usage {
                    Some(u) => with_usage(n, u),
                    None => n,
                },
                announced(calls, said, said.len()),
            )
        },
        TurnView::ToolResult { call_id, tool, result, duration } => {
            let call = if calls.dom().contains(call_id) {
                Some(calls[call_id])
            } else {
                None
            };
            (
                if result is Success {
                    m
                } else {
                    with_stored_call(m, call, tool, result, duration, p)
                },
                calls.remove(call_id),
            )
        },
        TurnView::SystemNote { mode_change, text } => (
            if mode_change {
                m
            } else {
                m.told(styled_line("· "@ + text, p.chrome()))
            },
            calls,
        ),
        TurnView::Error { message } => (
            ViewModel { transcript: m.transcript + error_rows(message, p), ..m },
            calls,
        ),
        TurnView::Cancelled => (m.told(styled_line("· cancelled"@, p.chrome())), calls),
    }
}

/// The first `n` turns shown again.
pub open spec fn restored(m: ViewModel, turns: Seq<TurnView>, n: nat, p: Palette) -> (
    ViewModel,
    Map<Seq<char>, ToolCallView>,
)
    decreases n,
{
    if n == 0 {
        (m, Map::empty())
    } else {
        let (k, calls) = restored(m, turns, (n - 1) as nat, p);
        restored_turn(k, calls, turns[n - 1], p)
    }
}

/// A list holds just the calls of a map, each once.
spec fn lists(v: Seq<ToolCall>, m: Map<Seq<char>, ToolCallView>) -> bool {
    &&& forall|i: int|
        0 <= i < v.len() ==> m.dom().contains((#[trigger] v[i]).id@) && m[v[i].id@] == v[i]@
    &&& forall|id: Seq<char>| #[trigger]
        m.dom().contains(id) ==> exists|i: int| 0 <= i < v.len() && (#[trigger] v[i]).id@ == id
    &&& forall|i: int, j: int|
        0 <= i < j < v.len() ==> (#[trigger] v[i]).id@ != (#[trigger] v[j]).id@
}

/// Take the call with an id out of a list.
fn take_call(v: &mut Vec<ToolCall>, id: &str, Ghost(m): Ghost<Map<Seq<char>, ToolCallView>>) -> (r:
    Option<ToolCall>)
    requires
        lists(old(v)@, m),
    ensures
        lists(final(v)@, m.remove(id@)),
        match r {
            Some(c) => m.dom().contains(id@) && m[id@] == c@,
            None => !m.dom().contains(id@),
        },
{
    let mut i: usize = 0;
    while i < v.len()
        invariant
            i <= v@.len(),
            v@ == old(v)@,
            lists(v@, m),
            forall|k: int| 0 <= k < i ==> (#[trigger] v@[k]).id@ != id@,
        decreases v@.len() - i,
    {
        if same(v[i].id.as_str(), id) {
            let ghost before = v@;
            let c: ToolCall = v.remove(i);
            assert(c == before[i as int]);
            assert forall|k: int| 0 <= k < v@.len() implies m.remove(id@).dom().contains(
                (#[trigger] v@[k]).id@,
            ) && m.remove(id@)[v@[k].id@] == v@[k]@ by {
                if k < i {
                    assert(v@[k] == before[k]);
                } else {
                    assert(v@[k] == before[k + 1]);
                }
            }
            assert forall|j: Seq<char>| #[trigger]
                m.remove(id@).dom().contains(j) implies exists|k: int|
                0 <= k < v@.len() && (#[trigger] v@[k]).id@ == j by {
                let k = choose|k: int| 0 <= k < before.len() && (#[trigger] before[k]).id@ == j;
                if k < i {
                    assert(v@[k] == before[k]);
                } else {
                    assert(v@[k - 1] == before[k]);
                }
            }
            assert forall|a: int, b: int| 0 <= a < b < v@.len() implies (#[trigger] v@[a]).id@ != (
            #[trigger] v@[b]).id@ by {
                let x = if a < i {
                    a
                } else {
                    a + 1
                };
                let y = if b < i {
                    b
                } else {
                    b + 1
                };
                assert(v@[a] == before[x] && v@[b] == before[y]);
            }
            return Some(c);
        }
        i += 1;
    }
    assert(!m.dom().contains(id@));
    assert(m.remove(id@) =~= m);
    None
}

/// Put a call in a list, in place of one with the same id.
fn put_call(v: &mut Vec<ToolCall>, c: ToolCall, Ghost(m): Ghost<Map<Seq<char>, ToolCallView>>)
    requires
        lists(old(v)@, m),
    ensures
        lists(final(v)@, m.insert(c.id@, c@)),
{
    let _old: Option<ToolCall> = take_call(v, c.id.as_str(), Ghost(m));
    let ghost before = v@;
    let ghost cv = c@;
    let ghost n = m.remove(cv.id);
    let ghost now = m.insert(cv.id, cv);
    v.push(c);
    assert forall|id: Seq<char>| #[trigger] now.dom().contains(id) implies exists|k: int|
        0 <= k < v@.len() && (#[trigger] v@[k]).id@ == id by {
        if id == cv.id {
            assert(v@[before.len() as int].id@ == id);
        } else {
            assert(n.dom().contains(id));
            let k = choose|k: int| 0 <= k < before.len() && (#[trigger] before[k]).id@ == id;
            assert(v@[k] == before[k]);
        }
    }
    assert forall|k: int| 0 <= k < v@.len() implies now.dom().contains((#[trigger] v@[k]).id@)
        && now[v@[k].id@] == v@[k]@ by {
        if k < before.len() {
            assert(v@[k] == before[k]);
            assert(n.dom().contains(before[k].id@));
        }
    }
    assert forall|a: int, b: int| 0 <= a < b < v@.len() implies (#[trigger] v@[a]).id@ != (
    #[trigger] v@[b]).id@ by {
        assert(v@[a] == before[a]);
        assert(n.dom().contains(before[a].id@));
        if b < before.len() {
            assert(v@[b] == before[b]);
        }
    }
}

/// Put a stored call that did not succeed behind a closed row.
fn restore_call(
    view: &mut ViewState,
    call: Option<ToolCall>,
    tool: &str,
    r: &ToolResultBody,
    duration: u64,
    p: Palette,
)
    ensures
        final(view)@ == with_stored_call(
            old(view)@,
            match call {
                Some(c) => Some(c@),
                None => None,
            },
            tool@,
            r@,
            duration,
            p,
        ),
{
    let mut body: Vec<Line> = Vec::new();
    assert(line_views(body@) =~= Seq::<LineView>::empty());
    let mut name: String = tool.to_owned();
    match &call {
        Some(c) => {
            let chars: Vec<char> = chars_of(c.name.as_str());
            if trim_of(chars.as_slice()).len() > 0 {
                name = c.name.clone();
            }
            let fields: CallFields = call_fields(c.arguments.as_str());
            body = call_lines(name.as_str(), &fields, c.arguments.as_str(), p);
        },
        None => {},
    }
    append_lines(&mut body, tool_result_detail_lines(r, p));
    view.push_tool_block(
        tool_summary_line(name.as_str(), r, duration, false, p),
        tool_summary_line(name.as_str(), r, duration, true, p),
        body,
    );
}

fn announce_calls(
    known: &mut Vec<ToolCall>,
    calls: &Vec<ToolCall>,
    Ghost(m): Ghost<Map<Seq<char>, ToolCallView>>,
)
    requires
        lists(old(known)@, m),
    ensures
        lists(final(known)@, announced(m, call_views(calls@), calls@.len())),
{
    let ghost said = call_views(calls@);
    let mut i: usize = 0;
    while i < calls.len()
        invariant
            i <= calls@.len(),
            said == call_views(calls@),
            lists(known@, announced(m, said, i as nat)),
        decreases calls@.len() - i,
    {
        assert(said[i as int] == calls@[i as int]@);
        let c: ToolCall = calls[i].clone();
        put_call(known, c, Ghost(announced(m, said, i as nat)));
        i += 1;
    }
}

/// Show what a request used as the last that was reported.
pub fn note_usage(view: &mut ViewState, u: Usage)
    ensures
        final(view)@ == with_usage(old(view)@, u),
{
    view.context_tokens = Some(u.prompt_tokens);
    view.context_tokens_estimated = false;
    view.cache_hit_rate = u.cache_hit_rate;
    view.last_usage = Some(u);
}

/// Show one more turn.
fn restore_turn(
    view: &mut ViewState,
    known: &mut Vec<ToolCall>,
    turn: &Turn,
    p: Palette,
    Ghost(m): Ghost<Map<Seq<char>, ToolCallView>>,
)
    requires
        lists(old(known)@, m),
    ensures
        final(view)@ == restored_turn(old(view)@, m, turn@, p).0,
        lists(final(known)@, restored_turn(old(view)@, m, turn@, p).1),
{
    match turn {
        Turn::User { content } => view.tell(user_prompt_line(content.as_str(), p)),
        Turn::Assistant { text, reasoning, calls, usage } => {
            let r: Option<&str> = match reasoning {
                Some(r) => Some(r.as_str()),
                None => None,
            };
            view.restore_assistant_turn(r, text.as_str(), p);
            announce_calls(known, calls, Ghost(m));
            match usage {
                Some(u) => note_usage(view, *u),
                None => {},
            }
        },
        Turn::ToolResult { call_id, tool, result, duration } => {
            let call: Option<ToolCall> = take_call(known, call_id.as_str(), Ghost(m));
            match result {
                ToolResultBody::Success { .. } => {},
                _ => restore_call(view, call, tool.as_str(), result, *duration, p),
            }
        },
        Turn::SystemNote { mode_change, text } => {
            if !*mode_change {
                let t: String = "· ".to_owned().concat(text.as_str());
                view.tell(Line::styled(t.as_str(), p.chrome()));
            }
        },
        Turn::Error { message } => {
            append_lines(&mut view.transcript, error_block(message.as_str(), p));
        },
        Turn::Cancelled => view.tell(Line::styled("· cancelled", p.chrome())),
    }
}

/// Show the turns of a stored session again, as they would look had they just
/// finished.
pub fn restore_history(view: &mut ViewState, history: &Vec<Turn>, p: Palette)
    ensures
        final(view)@ == restored(old(view)@, turn_views(history@), history@.len(), p).0,
{
    let ghost m0 = view@;
    let ghost turns = turn_views(history@);
    let mut known: Vec<ToolCall> = Vec::new();
    let mut i: usize = 0;
    while i < history.len()
        invariant
            i <= history@.len(),
            turns == turn_views(history@),
            view@ == restored(m0, turns, i as nat, p).0,
            lists(known@, restored(m0, turns, i as nat, p).1),
        decreases history@.len() - i,
    {
        assert(turns[i as int] == history@[i as int]@);
        restore_turn(view, &mut known, &history[i], p, Ghost(restored(m0, turns, i as nat, p).1));
        i += 1;
    }
}

} // verus!
