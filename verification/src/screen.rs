//! What goes on the screen: which lines of the transcript show, where their
//! click targets lie, and the text of every other region.
//!
//! Nothing here paints. Each function gives the lines of a region as values.
use crate::fit::{
    capped,
    fitted,
    full_width_turn_divider,
    is_divider,
    line_cells,
    line_texts,
    line_width,
    responsive_content_lines,
    row_count,
    stretched,
    wrapped_rows,
    WIDEST,
};
use crate::styled::{append_lines, line_views, Line, LineView};
use crate::theme::Palette;
use crate::view::{
    live_lines,
    parse_live,
    u16_capped,
    Hitbox,
    ReasoningBlock,
    ReasoningView,
    ToolBlock,
    ToolView,
    ViewModel,
    ViewState,
};
use vstd::prelude::*;
use vstd::string::*;

verus! {

/// A rectangle of the screen.
#[derive(Debug, Clone, Copy, PartialEq, Eq, Structural)]
pub struct Area {
    pub x: u16,
    pub y: u16,
    pub width: u16,
    pub height: u16,
}

/// The lines of the transcript area and how many physical rows of them are
/// scrolled off the top.
#[derive(Debug, PartialEq, Eq)]
pub struct TranscriptFrame {
    pub lines: Vec<Line>,
    pub scroll: u16,
}

/// The smaller of two numbers.
pub open spec fn least(a: int, b: int) -> int {
    if a < b {
        a
    } else {
        b
    }
}

/// The larger of two numbers.
pub open spec fn most(a: int, b: int) -> int {
    if a > b {
        a
    } else {
        b
    }
}

/// What shows below the transcript while nothing streams.
#[derive(Debug, Clone, Copy, PartialEq, Eq, Structural)]
pub enum LiveKind {
    /// Nothing: a turn is streaming, or none is under way.
    Nothing,
    /// The row of a running tool.
    Tool,
    /// The row of a model that is thinking.
    Thinking,
}

impl ViewModel {
    /// What shows below the transcript while nothing streams.
    pub open spec fn live_kind(self) -> LiveKind {
        if self.streaming() || !self.busy {
            LiveKind::Nothing
        } else if self.running > 0 {
            LiveKind::Tool
        } else {
            LiveKind::Thinking
        }
    }

    /// A turn is streaming text or reasoning.
    pub open spec fn streaming(self) -> bool {
        self.current_text.len() > 0 || self.current_reasoning.len() > 0
    }

    /// The cache of the streaming turn brought up to date.
    pub open spec fn refreshed(self, p: Palette) -> ViewModel {
        if self.current_dirty || (self.streaming() && self.current_parsed.len() == 0) {
            ViewModel {
                current_parsed: if self.streaming() {
                    live_lines(
                        self.current_reasoning,
                        self.current_text,
                        self.reasoning_elapsed,
                        p,
                    )
                } else {
                    Seq::empty()
                },
                current_dirty: false,
                ..self
            }
        } else {
            self
        }
    }

    /// How many lines there are to show, `live` of them below the transcript
    /// while nothing streams.
    pub open spec fn line_count(self, live: nat) -> int {
        capped(
            self.transcript.len() + if self.streaming() {
                self.current_parsed.len()
            } else {
                live
            },
        ) as int
    }

    /// The topmost line shown in an area of height `h`.
    pub open spec fn top(self, total: int, h: int) -> int {
        let last = most(total - h, 0);
        if self.follow {
            last
        } else {
            least(self.scroll_top, last)
        }
    }

    /// Line `i` of all that could show. The placeholder of streaming reasoning
    /// gives way to its animated form.
    pub open spec fn line_at(self, i: int, live: Seq<LineView>, thinking: LineView, w: u16) -> LineView {
        let tr = self.transcript.len();
        if i < tr {
            if is_divider(self.transcript[i]) {
                stretched(self.transcript[i], w as nat)
            } else {
                self.transcript[i]
            }
        } else if self.streaming() {
            if i == tr && self.current_reasoning.len() > 0 && self.reasoning_elapsed is None {
                thinking
            } else {
                self.current_parsed[i - tr]
            }
        } else {
            live[i - tr]
        }
    }

    /// The rows that stand for line `i`.
    pub open spec fn rows_at(self, i: int, live: Seq<LineView>, thinking: LineView, w: u16) -> Seq<
        LineView,
    > {
        let l = self.line_at(i, live, thinking, w);
        if w > 0 {
            fitted(l, w as nat)
        } else {
            seq![l]
        }
    }

    /// The rows that stand for the lines from `from` to `to`.
    pub open spec fn rows_between(
        self,
        from: int,
        to: int,
        live: Seq<LineView>,
        thinking: LineView,
        w: u16,
    ) -> Seq<LineView>
        decreases to - from,
    {
        if to <= from {
            Seq::empty()
        } else {
            self.rows_between(from, to - 1, live, thinking, w) + self.rows_at(
                to - 1,
                live,
                thinking,
                w,
            )
        }
    }

    /// The line that each of those rows stands for.
    pub open spec fn sources_between(
        self,
        from: int,
        to: int,
        live: Seq<LineView>,
        thinking: LineView,
        w: u16,
    ) -> Seq<int>
        decreases to - from,
    {
        if to <= from {
            Seq::empty()
        } else {
            self.sources_between(from, to - 1, live, thinking, w) + Seq::new(
                self.rows_at(to - 1, live, thinking, w).len(),
                |k: int| to - 1,
            )
        }
    }
}

/// The physical rows of one line; a line takes one at the least.
pub open spec fn physical_rows(l: LineView, w: u16) -> int {
    most(wrapped_rows(line_texts(seq![l]), w) as int, 1)
}

/// The physical rows above row `n`.
pub open spec fn rows_above(rows: Seq<LineView>, w: u16, n: int) -> int
    decreases n,
{
    if n <= 0 {
        0
    } else {
        capped((rows_above(rows, w, n - 1) + physical_rows(rows[n - 1], w)) as nat) as int
    }
}

/// The click target of a row that starts `top` physical rows down and takes
/// `count`, as far as it is in view.
pub open spec fn target(
    block: int,
    top: int,
    count: int,
    label: nat,
    area: Area,
    scroll: int,
) -> Option<Hitbox> {
    let from = most(top, scroll);
    let to = least(capped((top + count) as nat) as int, capped((scroll + area.height) as nat) as int);
    if from < to {
        Some(
            Hitbox {
                block_index: block as usize,
                x: area.x,
                y: u16_capped(area.y + (from - scroll)) as u16,
                width: most(least(label as int, area.width as int), 1) as u16,
                height: (to - from) as u16,
            },
        )
    } else {
        None
    }
}

/// The first block from `k` on whose row is line `i`.
pub open spec fn block_at(indices: Seq<int>, i: int, k: int) -> Option<int>
    decreases indices.len() - k,
{
    if k < 0 || k >= indices.len() {
        None
    } else if indices[k] == i {
        Some(k)
    } else {
        block_at(indices, i, k + 1)
    }
}

/// The click targets among the first `n` rows: those of rows that stand for the
/// row of a block.
pub open spec fn targets(
    indices: Seq<int>,
    transcript_len: int,
    rows: Seq<LineView>,
    sources: Seq<int>,
    area: Area,
    scroll: int,
    n: int,
) -> Seq<Hitbox>
    decreases n,
{
    if n <= 0 {
        Seq::empty()
    } else {
        let before = targets(indices, transcript_len, rows, sources, area, scroll, n - 1);
        let i = sources[n - 1];
        if i < transcript_len {
            match block_at(indices, i, 0) {
                Some(b) => match target(
                    b,
                    rows_above(rows, area.width, n - 1),
                    physical_rows(rows[n - 1], area.width),
                    line_cells(rows[n - 1]),
                    area,
                    scroll,
                ) {
                    Some(h) => before.push(h),
                    None => before,
                },
                None => before,
            }
        } else {
            before
        }
    }
}

/// The rows of reasoning blocks.
pub open spec fn reasoning_indices(bs: Seq<ReasoningView>) -> Seq<int> {
    bs.map_values(|b: ReasoningView| b.summary_index)
}

/// The rows of tool blocks.
pub open spec fn tool_indices(bs: Seq<ToolView>) -> Seq<int> {
    bs.map_values(|b: ToolView| b.summary_index)
}

/// How many physical rows are scrolled off the top: those that do not fit while
/// the view follows the bottom.
pub open spec fn scroll_off(rows: Seq<LineView>, area: Area, follow: bool) -> int {
    if follow {
        least(
            most(wrapped_rows(line_texts(rows), area.width) - area.height, 0),
            u16::MAX as int,
        )
    } else {
        0
    }
}

/// What a frame of the transcript holds: its rows, how far they are scrolled,
/// and the click targets of reasoning and of tools.
#[verifier::ext_equal]
pub struct FrameView {
    pub rows: Seq<LineView>,
    pub scroll: int,
    pub thoughts: Seq<Hitbox>,
    pub tools: Seq<Hitbox>,
}

/// The frame of a state in an area.
pub open spec fn frame(
    n: ViewModel,
    area: Area,
    live: Seq<LineView>,
    thinking: LineView,
) -> FrameView {
    let h = area.height as int;
    let w = area.width;
    let total = n.line_count(live.len());
    let from = n.top(total, h);
    let to = least(from + h, total);
    let rows = n.rows_between(from, to, live, thinking, w);
    let sources = n.sources_between(from, to, live, thinking, w);
    let scroll = scroll_off(rows, area, n.follow);
    let tr = n.transcript.len() as int;
    let count = if w > 0 && h > 0 {
        rows.len() as int
    } else {
        0
    };
    FrameView {
        rows,
        scroll,
        thoughts: targets(
            reasoning_indices(n.reasoning_blocks),
            tr,
            rows,
            sources,
            area,
            scroll,
            count,
        ),
        tools: targets(tool_indices(n.tool_blocks), tr, rows, sources, area, scroll, count),
    }
}

/// The state after its transcript has been laid out in an area, the rows to
/// show and how far they are scrolled. While there is nothing to show there are
/// no rows.
pub open spec fn laid_out(
    m: ViewModel,
    area: Area,
    live: Seq<LineView>,
    thinking: LineView,
    p: Palette,
) -> (ViewModel, Seq<LineView>, int) {
    let start = ViewModel { area_height: area.height as int, ..m }.without_targets();
    if m.welcoming() {
        (start, Seq::empty(), 0)
    } else {
        let n = start.refreshed(p);
        let f = frame(n, area, live, thinking);
        (
            ViewModel { reasoning_hitboxes: f.thoughts, tool_hitboxes: f.tools, ..n },
            f.rows,
            f.scroll,
        )
    }
}

/// Positions as mathematical integers.
pub open spec fn positions(v: Seq<usize>) -> Seq<int> {
    v.map_values(|i: usize| i as int)
}

/// The block whose row is line `i`.
fn find_block(indices: &Vec<usize>, i: usize) -> (r: Option<usize>)
    ensures
        match r {
            Some(k) => block_at(positions(indices@), i as int, 0) == Some(k as int),
            None => block_at(positions(indices@), i as int, 0) is None,
        },
{
    let ghost iv = positions(indices@);
    let mut k: usize = 0;
    while k < indices.len()
        invariant
            k <= indices@.len(),
            iv == positions(indices@),
            block_at(iv, i as int, 0) == block_at(iv, i as int, k as int),
        decreases indices@.len() - k,
    {
        assert(iv[k as int] == indices@[k as int]);
        if indices[k] == i {
            return Some(k);
        }
        k += 1;
    }
    None
}

/// The click target of a row, as far as it is in view.
fn target_of(block: usize, top: usize, count: usize, label: usize, area: Area, scroll: u16) -> (r:
    Option<Hitbox>)
    ensures
        r == target(block as int, top as int, count as int, label as nat, area, scroll as int),
{
    let end: usize = top.saturating_add(count);
    let view_from: usize = scroll as usize;
    let view_to: usize = view_from.saturating_add(area.height as usize);
    let from: usize = if top > view_from {
        top
    } else {
        view_from
    };
    let to: usize = if end < view_to {
        end
    } else {
        view_to
    };
    if from < to {
        let down: u16 = (from - view_from) as u16;
        let width: usize = if label < area.width as usize {
            label
        } else {
            area.width as usize
        };
        let wide: u16 = if width < 1 {
            1
        } else {
            width as u16
        };
        Some(
            Hitbox {
                block_index: block,
                x: area.x,
                y: area.y.saturating_add(down),
                width: wide,
                height: (to - from) as u16,
            },
        )
    } else {
        None
    }
}

/// The physical rows of one line.
fn physical_rows_of(l: &Line, w: u16) -> (n: usize)
    requires
        w <= WIDEST,
    ensures
        n == physical_rows(l@, w),
{
    let mut one: Vec<Line> = Vec::new();
    let c: Line = l.clone();
    let ghost cv = c@;
    one.push(c);
    assert(line_views(one@) =~= seq![cv]);
    let n: usize = row_count(one.as_slice(), w);
    if n < 1 {
        1
    } else {
        n
    }
}

/// The click targets of blocks whose rows are among the shown rows.
fn find_targets(
    indices: &Vec<usize>,
    transcript_len: usize,
    rows: &Vec<Line>,
    sources: &Vec<usize>,
    area: Area,
    scroll: u16,
) -> (out: Vec<Hitbox>)
    requires
        rows@.len() == sources@.len(),
        area.width <= WIDEST,
    ensures
        out@ == targets(
            positions(indices@),
            transcript_len as int,
            line_views(rows@),
            positions(sources@),
            area,
            scroll as int,
            rows@.len() as int,
        ),
{
    let ghost rv = line_views(rows@);
    let ghost sv = positions(sources@);
    let ghost iv = positions(indices@);
    let mut out: Vec<Hitbox> = Vec::new();
    let mut top: usize = 0;
    let mut n: usize = 0;
    let total: usize = rows.len();
    while n < total
        invariant
            n <= total,
            total == rows@.len(),
            rows@.len() == sources@.len(),
            area.width <= WIDEST,
            rv == line_views(rows@),
            sv == positions(sources@),
            iv == positions(indices@),
            top == rows_above(rv, area.width, n as int),
            out@ == targets(iv, transcript_len as int, rv, sv, area, scroll as int, n as int),
        decreases total - n,
    {
        assert(rv[n as int] == rows@[n as int]@);
        let count: usize = physical_rows_of(&rows[n], area.width);
        let source: usize = sources[n];
        assert(sv[n as int] == source);
        if source < transcript_len {
            match find_block(indices, source) {
                Some(k) => {
                    let label: usize = line_width(&rows[n]);
                    match target_of(k, top, count, label, area, scroll) {
                        Some(t) => out.push(t),
                        None => {},
                    }
                },
                None => {},
            }
        }
        top = top.saturating_add(count);
        n += 1;
    }
    out
}

fn reasoning_rows_of(bs: &Vec<ReasoningBlock>) -> (out: Vec<usize>)
    ensures
        positions(out@) == reasoning_indices(crate::view::reasoning_views(bs@)),
{
    let mut out: Vec<usize> = Vec::new();
    let mut i: usize = 0;
    let ghost want = reasoning_indices(crate::view::reasoning_views(bs@));
    while i < bs.len()
        invariant
            i <= bs@.len(),
            want == reasoning_indices(crate::view::reasoning_views(bs@)),
            positions(out@) =~= want.take(i as int),
        decreases bs@.len() - i,
    {
        let ghost before = positions(out@);
        out.push(bs[i].summary_index);
        i += 1;
        assert(positions(out@) =~= before.push(want[i - 1]));
    }
    assert(want.take(i as int) =~= want);
    out
}

fn tool_rows_of(bs: &Vec<ToolBlock>) -> (out: Vec<usize>)
    ensures
        positions(out@) == tool_indices(crate::view::tool_views(bs@)),
{
    let mut out: Vec<usize> = Vec::new();
    let mut i: usize = 0;
    let ghost want = tool_indices(crate::view::tool_views(bs@));
    while i < bs.len()
        invariant
            i <= bs@.len(),
            want == tool_indices(crate::view::tool_views(bs@)),
            positions(out@) =~= want.take(i as int),
        decreases bs@.len() - i,
    {
        let ghost before = positions(out@);
        out.push(bs[i].summary_index);
        i += 1;
        assert(positions(out@) =~= before.push(want[i - 1]));
    }
    assert(want.take(i as int) =~= want);
    out
}

impl ViewState {
    /// A turn is streaming text or reasoning.
    pub fn has_stream(&self) -> (r: bool)
        ensures
            r == self@.streaming(),
    {
        !self.current_text.as_str().is_empty() || !self.current_reasoning.as_str().is_empty()
    }

    /// Bring the cache of the streaming turn up to date.
    pub fn refresh_live(&mut self, p: Palette)
        ensures
            final(self)@ == old(self)@.refreshed(p),
    {
        let stream: bool = self.has_stream();
        if self.current_dirty || (stream && self.current_parsed.len() == 0) {
            if stream {
                self.current_parsed = parse_live(
                    self.current_reasoning.as_str(),
                    self.current_text.as_str(),
                    self.reasoning_elapsed,
                    p,
                );
            } else {
                self.current_parsed.clear();
            }
            self.current_dirty = false;
            assert(self@ =~= old(self)@.refreshed(p));
        }
    }

    /// What shows below the transcript while nothing streams.
    pub fn live_kind(&self) -> (k: LiveKind)
        ensures
            k == self@.live_kind(),
    {
        if self.has_stream() || !self.busy {
            LiveKind::Nothing
        } else if self.running > 0 {
            LiveKind::Tool
        } else {
            LiveKind::Thinking
        }
    }

    /// How many lines there are to show.
    pub fn shown_line_count(&self, live: usize) -> (n: usize)
        ensures
            n == self@.line_count(live as nat),
    {
        let below: usize = if self.has_stream() {
            self.current_parsed.len()
        } else {
            live
        };
        self.transcript.len().saturating_add(below)
    }

    /// The topmost line shown in an area of height `h`.
    pub fn top_line(&self, total: usize, h: usize) -> (n: usize)
        ensures
            n == self@.top(total as int, h as int),
    {
        let last: usize = total.saturating_sub(h);
        if self.follow {
            last
        } else if self.scroll_top < last {
            self.scroll_top
        } else {
            last
        }
    }

    /// Line `i` of all that could show.
    fn shown_line(&self, i: usize, live: &Vec<Line>, thinking: &Line, w: u16) -> (l: Line)
        requires
            i < self@.line_count(live@.len()),
        ensures
            l@ == self@.line_at(i as int, line_views(live@), thinking@, w),
    {
        let tr: usize = self.transcript.len();
        if i < tr {
            assert(self@.transcript[i as int] == self.transcript@[i as int]@);
            match full_width_turn_divider(&self.transcript[i], w) {
                Some(d) => d,
                None => self.transcript[i].clone(),
            }
        } else if self.has_stream() {
            if i == tr && !self.current_reasoning.as_str().is_empty()
                && self.reasoning_elapsed.is_none() {
                thinking.clone()
            } else {
                assert(self@.current_parsed[i - tr] == self.current_parsed@[i - tr]@);
                self.current_parsed[i - tr].clone()
            }
        } else {
            assert(line_views(live@)[i - tr] == live@[i - tr]@);
            live[i - tr].clone()
        }
    }

    /// The rows that stand for the lines from `from` to `to`, and the line that
    /// each stands for.
    fn shown_rows(&self, from: usize, to: usize, live: &Vec<Line>, thinking: &Line, w: u16) -> (r: (
        Vec<Line>,
        Vec<usize>,
    ))
        requires
            from <= to,
            to <= self@.line_count(live@.len()),
        ensures
            line_views(r.0@) == self@.rows_between(
                from as int,
                to as int,
                line_views(live@),
                thinking@,
                w,
            ),
            positions(r.1@) == self@.sources_between(
                from as int,
                to as int,
                line_views(live@),
                thinking@,
                w,
            ),
            r.0@.len() == r.1@.len(),
    {
        let ghost m = self@;
        let ghost lv = line_views(live@);
        let mut lines: Vec<Line> = Vec::new();
        let mut sources: Vec<usize> = Vec::new();
        let mut i: usize = from;
        assert(line_views(lines@) =~= m.rows_between(from as int, from as int, lv, thinking@, w));
        assert(positions(sources@) =~= m.sources_between(
            from as int,
            from as int,
            lv,
            thinking@,
            w,
        ));
        while i < to
            invariant
                from <= i <= to,
                to <= m.line_count(live@.len()),
                self@ == m,
                lv == line_views(live@),
                line_views(lines@) == m.rows_between(from as int, i as int, lv, thinking@, w),
                positions(sources@) == m.sources_between(
                    from as int,
                    i as int,
                    lv,
                    thinking@,
                    w,
                ),
                lines@.len() == sources@.len(),
            decreases to - i,
        {
            let l: Line = self.shown_line(i, live, thinking, w);
            let rows: Vec<Line> = if w > 0 {
                responsive_content_lines(l, w)
            } else {
                let ghost x = l@;
                let mut v: Vec<Line> = Vec::new();
                v.push(l);
                assert(line_views(v@) =~= seq![x]);
                v
            };
            let ghost rv = line_views(rows@);
            assert(rv == m.rows_at(i as int, lv, thinking@, w));
            let count: usize = rows.len();
            assert(rv.len() == count);
            let ghost s0 = positions(sources@);
            let ghost n0 = lines@.len();
            append_lines(&mut lines, rows);
            assert(line_views(lines@).len() == lines@.len());
            let mut k: usize = 0;
            while k < count
                invariant
                    k <= count,
                    positions(sources@) =~= s0 + Seq::new(k as nat, |q: int| i as int),
                    sources@.len() == n0 + k,
                decreases count - k,
            {
                let ghost b = positions(sources@);
                sources.push(i);
                assert(positions(sources@) =~= b.push(i as int));
                k += 1;
            }
            i += 1;
            assert(m.sources_between(from as int, i as int, lv, thinking@, w) =~= s0 + Seq::new(
                count as nat,
                |q: int| i - 1,
            ));
        }
        (lines, sources)
    }

    /// The frame of the state in an area.
    fn frame_of(&self, area: Area, live: &Vec<Line>, thinking: &Line) -> (r: (
        TranscriptFrame,
        Vec<Hitbox>,
        Vec<Hitbox>,
    ))
        requires
            area.width <= WIDEST,
        ensures
            (FrameView {
                rows: line_views(r.0.lines@),
                scroll: r.0.scroll as int,
                thoughts: r.1@,
                tools: r.2@,
            }) == frame(self@, area, line_views(live@), thinking@),
    {
        let h: usize = area.height as usize;
        let w: u16 = area.width;
        let total: usize = self.shown_line_count(live.len());
        let from: usize = self.top_line(total, h);
        let to: usize = if total - from < h {
            total
        } else {
            from + h
        };
        let (lines, sources): (Vec<Line>, Vec<usize>) = self.shown_rows(from, to, live, thinking, w);
        let ghost rows = line_views(lines@);
        assert(rows.len() == lines@.len());
        let scroll: u16 = if self.follow {
            let all: usize = row_count(lines.as_slice(), w);
            let over: usize = all.saturating_sub(h);
            if over > u16::MAX as usize {
                u16::MAX
            } else {
                over as u16
            }
        } else {
            0
        };
        if w > 0 && h > 0 {
            let tr: usize = self.transcript.len();
            let thoughts: Vec<usize> = reasoning_rows_of(&self.reasoning_blocks);
            let tools: Vec<usize> = tool_rows_of(&self.tool_blocks);
            let a: Vec<Hitbox> = find_targets(&thoughts, tr, &lines, &sources, area, scroll);
            let b: Vec<Hitbox> = find_targets(&tools, tr, &lines, &sources, area, scroll);
            (TranscriptFrame { lines, scroll }, a, b)
        } else {
            (TranscriptFrame { lines, scroll }, Vec::new(), Vec::new())
        }
    }

    /// Lay the transcript out in an area: the lines to show, fitted to the
    /// width, how far they are scrolled, and the click targets of this frame.
    /// `live` is what shows below the transcript while nothing streams,
    /// `thinking` the animated row of streaming reasoning.
    pub fn lay_out(
        &mut self,
        area: Area,
        live: &Vec<Line>,
        thinking: &Line,
        p: Palette,
    ) -> (r: TranscriptFrame)
        requires
            area.width <= WIDEST,
        ensures
            (final(self)@, line_views(r.lines@), r.scroll as int) == laid_out(
                old(self)@,
                area,
                line_views(live@),
                thinking@,
                p,
            ),
    {
        let ghost m0 = self@;
        self.area_height = area.height as usize;
        self.reasoning_hitboxes.clear();
        self.tool_hitboxes.clear();
        let ghost m1 = ViewModel { area_height: area.height as int, ..m0 }.without_targets();
        assert(self@ =~= m1);
        if self.welcome_card_visible() {
            let none: Vec<Line> = Vec::new();
            assert(line_views(none@) =~= Seq::<LineView>::empty());
            return TranscriptFrame { lines: none, scroll: 0 };
        }
        self.refresh_live(p);
        let (shown, a, b): (TranscriptFrame, Vec<Hitbox>, Vec<Hitbox>) = self.frame_of(
            area,
            live,
            thinking,
        );
        self.reasoning_hitboxes = a;
        self.tool_hitboxes = b;
        shown
    }
}

} // verus!
