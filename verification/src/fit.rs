//! Fitting transcript lines to the width of the viewport.
//!
//! A line that fits stays as it is. A table row or border that does not is
//! rebuilt with narrower columns, its cells wrapped inside them. Assistant
//! prose is wrapped under its gutter. Turn dividers are stretched to the width.
use crate::styled::{
    append_spans,
    copy_spans,
    line,
    line_views,
    raw,
    span,
    span_views,
    Color,
    Line,
    LineView,
    Span,
    SpanView,
    Style,
};
use crate::text::{
    char_text,
    chars_of,
    decimal,
    is_white,
    matches_at,
    number,
    push_repeat,
    repeat,
    same,
    slice_of,
    stands_at,
    text_of,
    trim,
    trim_end,
    trim_end_of,
    trim_of,
    trim_start,
    trim_start_of,
    white,
};
use crate::theme::{Palette, DEFAULT_LOGO};
use vstd::prelude::*;
use vstd::slice::slice_subrange;
use vstd::string::*;

verus! {

/// The number of terminal cells that a text takes: what
/// `ratatui::text::Span::width` gives for a span of it.
pub uninterp spec fn cells(text: Seq<char>) -> nat;

/// The number of terminal rows that some lines take when wrapped at a width
/// without trimming, each line given by the texts of its spans: what
/// `ratatui::widgets::Paragraph::line_count` gives for them.
pub uninterp spec fn wrapped_rows(lines: Seq<Seq<Seq<char>>>, width: u16) -> nat;

/// Calls `ratatui::text::Span::width`, which measures the text of a span with
/// the Unicode width tables. Claims only that the result is the named number
/// for that text.
#[verifier::external_body]
pub(crate) fn cell_width(text: &str) -> (n: usize)
    ensures
        n == cells(text@),
{
    ratatui::text::Span::raw(text).width()
}

/// The texts of the spans of a line.
pub open spec fn span_texts(l: LineView) -> Seq<Seq<char>> {
    l.spans.map_values(|s: SpanView| s.content)
}

/// The texts of the spans of some lines.
pub open spec fn line_texts(lines: Seq<LineView>) -> Seq<Seq<Seq<char>>> {
    lines.map_values(|l: LineView| span_texts(l))
}

/// The widest area that lines are wrapped in: four times as much can be counted
/// in 16 bits.
pub const WIDEST: u16 = 16383;

/// Calls `ratatui::widgets::Paragraph::line_count` on the lines, wrapped without
/// trimming. Claims that the result is the named number for the texts of the
/// spans: styles take no part in it. Wrapping adds up to four widths in 16 bits,
/// so that wider areas, where the sum could overflow, are left out.
#[verifier::external_body]
pub(crate) fn row_count(lines: &[Line], width: u16) -> (n: usize)
    requires
        width <= WIDEST,
    ensures
        n == wrapped_rows(line_texts(line_views(lines@)), width),
{
    let mut text: Vec<ratatui::text::Line> = Vec::new();
    for l in lines {
        let spans: Vec<ratatui::text::Span> =
            l.spans.iter().map(|s| ratatui::text::Span::raw(s.content.as_str())).collect();
        text.push(ratatui::text::Line::from(spans));
    }
    let wrap = ratatui::widgets::Wrap { trim: false };
    ratatui::widgets::Paragraph::new(text).wrap(wrap).line_count(width)
}

/// A number, or the largest that the machine counts to.
pub open spec fn capped(n: nat) -> nat {
    if n > usize::MAX {
        usize::MAX as nat
    } else {
        n
    }
}

/// The cells that some spans take.
pub open spec fn spans_cells(spans: Seq<SpanView>) -> nat
    decreases spans.len(),
{
    if spans.len() == 0 {
        0
    } else {
        spans_cells(spans.drop_last()) + cells(spans.last().content)
    }
}

/// The cells that a line takes.
pub open spec fn line_cells(l: LineView) -> nat {
    capped(spans_cells(l.spans))
}

/// The cells that some spans take.
pub fn spans_width(spans: &[Span]) -> (n: usize)
    ensures
        n == capped(spans_cells(span_views(spans@))),
{
    let ghost all = span_views(spans@);
    let mut n: usize = 0;
    let mut i: usize = 0;
    while i < spans.len()
        invariant
            i <= spans@.len(),
            all == span_views(spans@),
            n == capped(spans_cells(all.take(i as int))),
        decreases spans@.len() - i,
    {
        let w: usize = cell_width(spans[i].content.as_str());
        n = n.saturating_add(w);
        i += 1;
        assert(all.take(i as int).drop_last() =~= all.take(i - 1));
        assert(all.take(i as int).last() == spans@[i - 1]@);
    }
    assert(all.take(i as int) =~= all);
    n
}

/// The cells that a line takes.
pub fn line_width(l: &Line) -> (n: usize)
    ensures
        n == line_cells(l@),
{
    spans_width(l.spans.as_slice())
}

/// The text of some spans.
pub open spec fn spans_text(spans: Seq<SpanView>) -> Seq<char>
    decreases spans.len(),
{
    if spans.len() == 0 {
        Seq::empty()
    } else {
        spans_text(spans.drop_last()) + spans.last().content
    }
}

/// The text of a line.
pub open spec fn line_text(l: LineView) -> Seq<char> {
    spans_text(l.spans)
}

/// The text of some spans.
pub fn text_of_spans(spans: &[Span]) -> (r: String)
    ensures
        r@ == spans_text(span_views(spans@)),
{
    let ghost all = span_views(spans@);
    let mut r: String = String::new();
    let mut i: usize = 0;
    assert(all.take(0) =~= Seq::<SpanView>::empty());
    assert(r@ =~= spans_text(all.take(0)));
    while i < spans.len()
        invariant
            i <= spans@.len(),
            all == span_views(spans@),
            r@ == spans_text(all.take(i as int)),
        decreases spans@.len() - i,
    {
        r.append(spans[i].content.as_str());
        i += 1;
        assert(all.take(i as int).drop_last() =~= all.take(i - 1));
        assert(all.take(i as int).last() == spans@[i - 1]@);
    }
    assert(all.take(i as int) =~= all);
    r
}

/// The text of a line.
pub fn text_of_line(l: &Line) -> (r: String)
    ensures
        r@ == line_text(l@),
{
    text_of_spans(l.spans.as_slice())
}

// ---- glyphs and wrapping ----------------------------------------------------
/// A character in its style, with the cells that it takes.
#[derive(Debug, Clone, Copy)]
pub struct Glyph {
    pub ch: char,
    pub style: Style,
    pub width: usize,
}

/// The glyph of a character; it takes a cell at the least.
pub open spec fn glyph(c: char, style: Style) -> Glyph {
    let w = cells(seq![c]);
    Glyph {
        ch: c,
        style,
        width: (if w < 1 {
            1
        } else {
            w
        }) as usize,
    }
}

/// The glyphs of a text.
pub open spec fn text_glyphs(s: Seq<char>, style: Style) -> Seq<Glyph> {
    s.map_values(|c: char| glyph(c, style))
}

/// The glyphs of some spans.
pub open spec fn glyphs(spans: Seq<SpanView>) -> Seq<Glyph>
    decreases spans.len(),
{
    if spans.len() == 0 {
        Seq::empty()
    } else {
        glyphs(spans.drop_last()) + text_glyphs(spans.last().content, spans.last().style)
    }
}

fn glyphs_of(spans: &[Span]) -> (out: Vec<Glyph>)
    ensures
        out@ == glyphs(span_views(spans@)),
{
    let ghost all = span_views(spans@);
    let mut out: Vec<Glyph> = Vec::new();
    let mut i: usize = 0;
    assert(all.take(0) =~= Seq::<SpanView>::empty());
    while i < spans.len()
        invariant
            i <= spans@.len(),
            all == span_views(spans@),
            out@ == glyphs(all.take(i as int)),
        decreases spans@.len() - i,
    {
        let ghost before = out@;
        let chars: Vec<char> = chars_of(spans[i].content.as_str());
        let style: Style = spans[i].style;
        let ghost new = text_glyphs(chars@, style);
        let mut j: usize = 0;
        while j < chars.len()
            invariant
                j <= chars@.len(),
                new == text_glyphs(chars@, style),
                out@ =~= before + new.take(j as int),
            decreases chars@.len() - j,
        {
            let c: char = chars[j];
            let one: String = char_text(c);
            let w: usize = cell_width(one.as_str());
            let width: usize = if w < 1 {
                1
            } else {
                w
            };
            let g = Glyph { ch: c, style, width };
            assert(g == new[j as int]);
            out.push(g);
            j += 1;
        }
        assert(new.take(j as int) =~= new);
        i += 1;
        assert(all.take(i as int).drop_last() =~= all.take(i - 1));
        assert(all.take(i as int).last() == spans@[i - 1]@);
    }
    assert(all.take(i as int) =~= all);
    out
}

/// The spans of some glyphs: neighbours in one style make one span.
pub open spec fn glyph_spans(g: Seq<Glyph>) -> Seq<SpanView>
    decreases g.len(),
{
    if g.len() == 0 {
        Seq::empty()
    } else {
        let before = glyph_spans(g.drop_last());
        if before.len() > 0 && before.last().style == g.last().style {
            before.drop_last().push(
                span(before.last().content.push(g.last().ch), g.last().style),
            )
        } else {
            before.push(span(seq![g.last().ch], g.last().style))
        }
    }
}

/// The spans of some glyphs.
pub fn glyphs_to_spans(g: &[Glyph]) -> (out: Vec<Span>)
    ensures
        span_views(out@) == glyph_spans(g@),
{
    let mut out: Vec<Span> = Vec::new();
    let mut i: usize = 0;
    assert(g@.take(0) =~= Seq::<Glyph>::empty());
    assert(span_views(out@) =~= glyph_spans(g@.take(0)));
    while i < g.len()
        invariant
            i <= g@.len(),
            span_views(out@) == glyph_spans(g@.take(i as int)),
        decreases g@.len() - i,
    {
        let ghost before = span_views(out@);
        assert(before.len() == out@.len());
        assert(g@.take(i + 1).drop_last() =~= g@.take(i as int));
        let ch: char = g[i].ch;
        let style: Style = g[i].style;
        let n: usize = out.len();
        if n > 0 && out[n - 1].style == style {
            assert(before.last() == out@[n - 1]@);
            let last: Option<Span> = out.pop();
            assert(span_views(out@) =~= before.drop_last());
            match last {
                Some(mut s) => {
                    let ghost sv = s@;
                    s.content.push(ch);
                    let ghost tv = s@;
                    assert(tv == span(sv.content.push(ch), style));
                    out.push(s);
                    assert(span_views(out@) =~= before.drop_last().push(tv));
                },
                None => {},
            }
        } else {
            let one: String = char_text(ch);
            let s = Span { content: one, style };
            let ghost sv = s@;
            assert(n > 0 ==> before.last() == out@[n - 1]@);
            out.push(s);
            assert(span_views(out@) =~= before.push(sv));
        }
        i += 1;
    }
    assert(g@.take(i as int) =~= g@);
    out
}

/// The first position at or behind `i` that is not white.
pub open spec fn skip_white(g: Seq<Glyph>, i: int) -> int
    decreases g.len() - i,
{
    if i < 0 || i >= g.len() || !white(g[i].ch) {
        i
    } else {
        skip_white(g, i + 1)
    }
}

/// Where a row that starts at `i` with `used` cells taken has to end.
pub open spec fn fit_end(g: Seq<Glyph>, i: int, used: int, width: int) -> int
    decreases g.len() - i,
{
    if i < 0 || i >= g.len() || used + g[i].width > width {
        i
    } else {
        fit_end(g, i + 1, used + g[i].width, width)
    }
}

/// The last white position between two others, the first left out.
pub open spec fn last_white(g: Seq<Glyph>, from: int, to: int) -> Option<int>
    decreases to - from,
{
    if to <= from + 1 || to > g.len() || from < 0 {
        None
    } else if white(g[to - 1].ch) {
        Some(to - 1)
    } else {
        last_white(g, from, to - 1)
    }
}

/// Where the row that starts at `s` is cut, and where the next one is looked
/// for: at the end, at the last white glyph, before a word that is too long, or
/// behind a glyph that is too wide by itself.
pub open spec fn cut(g: Seq<Glyph>, s: int, width: int) -> (int, int) {
    let e = fit_end(g, s, 0, width);
    if e == g.len() {
        (e, e)
    } else {
        match last_white(g, s, e) {
            Some(w) => (w, w + 1),
            None => if e > s {
                (e, e)
            } else {
                (s + 1, s + 1)
            },
        }
    }
}

/// A row that fits ends behind its start, inside the glyphs.
pub proof fn lemma_fit_end(g: Seq<Glyph>, i: int, used: int, width: int)
    requires
        0 <= i <= g.len(),
    ensures
        i <= fit_end(g, i, used, width) <= g.len(),
    decreases g.len() - i,
{
    if i < g.len() && used + g[i].width <= width {
        lemma_fit_end(g, i + 1, used + g[i].width, width);
    }
}

/// A white position found lies strictly between.
pub proof fn lemma_last_white(g: Seq<Glyph>, from: int, to: int)
    requires
        0 <= from,
        to <= g.len(),
    ensures
        match last_white(g, from, to) {
            Some(w) => from < w < to && white(g[w].ch) && forall|k: int|
                w < k < to ==> !white((#[trigger] g[k]).ch),
            None => forall|k: int| from < k < to ==> !white((#[trigger] g[k]).ch),
        },
    decreases to - from,
{
    if to > from + 1 && !white(g[to - 1].ch) {
        lemma_last_white(g, from, to - 1);
    }
}

/// Skipping white goes forward and passes nothing else.
pub proof fn lemma_skip_white(g: Seq<Glyph>, i: int)
    requires
        0 <= i <= g.len(),
    ensures
        i <= skip_white(g, i) <= g.len(),
        skip_white(g, i) < g.len() ==> !white(g[skip_white(g, i)].ch),
        forall|k: int| i <= k < skip_white(g, i) ==> white((#[trigger] g[k]).ch),
    decreases g.len() - i,
{
    if i < g.len() && white(g[i].ch) {
        lemma_skip_white(g, i + 1);
    }
}

/// A cut goes forward.
pub proof fn lemma_cut(g: Seq<Glyph>, s: int, width: int)
    requires
        0 <= s < g.len(),
        0 <= width,
    ensures
        s < cut(g, s, width).0 <= cut(g, s, width).1 <= g.len(),
        cut(g, s, width).1 > s,
{
    lemma_fit_end(g, s, 0, width);
    lemma_last_white(g, s, fit_end(g, s, 0, width));
}

/// The rows of the glyphs from `i` on.
pub open spec fn glyph_rows(g: Seq<Glyph>, i: int, width: int) -> Seq<Seq<Glyph>>
    decreases g.len() - i,
{
    if i < 0 || i > g.len() || width < 0 {
        Seq::empty()
    } else {
        let s = skip_white(g, i);
        if s >= g.len() {
            Seq::empty()
        } else {
            proof {
                lemma_skip_white(g, i);
                lemma_cut(g, s, width);
            }
            let (e, next) = cut(g, s, width);
            seq![g.subrange(s, e)] + glyph_rows(g, next, width)
        }
    }
}

/// Some spans word-wrapped: the spans of each row. There is always a row.
pub open spec fn wrap(spans: Seq<SpanView>, width: nat) -> Seq<Seq<SpanView>> {
    wrapped_glyphs(glyphs(spans), width)
}

/// What the spans of some rows hold.
pub open spec fn rows_view(rows: Seq<Vec<Span>>) -> Seq<Seq<SpanView>> {
    rows.map_values(|r: Vec<Span>| span_views(r@))
}

fn skip_white_from(g: &[Glyph], i: usize) -> (r: usize)
    requires
        i <= g@.len(),
    ensures
        r == skip_white(g@, i as int),
        i <= r <= g@.len(),
{
    let mut r: usize = i;
    while r < g.len() && is_white(g[r].ch)
        invariant
            i <= r <= g@.len(),
            skip_white(g@, i as int) == skip_white(g@, r as int),
        decreases g@.len() - r,
    {
        r += 1;
    }
    r
}

/// Where the row that starts at `s` is cut, and where the next one is looked for.
fn cut_at(g: &[Glyph], s: usize, width: usize) -> (r: (usize, usize))
    requires
        s < g@.len(),
    ensures
        (r.0 as int, r.1 as int) == cut(g@, s as int, width as int),
        s < r.0 <= r.1 <= g@.len(),
{
    let mut end: usize = s;
    let mut used: usize = 0;
    let mut space: Option<usize> = None;
    while end < g.len() && g[end].width <= width - used
        invariant
            s <= end <= g@.len(),
            s < g@.len(),
            used <= width,
            fit_end(g@, s as int, 0, width as int) == fit_end(
                g@,
                end as int,
                used as int,
                width as int,
            ),
            match space {
                Some(w) => last_white(g@, s as int, end as int) == Some(w as int) && s < w < end,
                None => last_white(g@, s as int, end as int) is None,
            },
        decreases g@.len() - end,
    {
        used += g[end].width;
        if end > s && is_white(g[end].ch) {
            space = Some(end);
        }
        end += 1;
    }
    proof {
        lemma_cut(g@, s as int, width as int);
    }
    if end == g.len() {
        (end, end)
    } else {
        match space {
            Some(w) => (w, w + 1),
            None => if end > s {
                (end, end)
            } else {
                (s + 1, s + 1)
            },
        }
    }
}

/// The spans of the rows of some glyphs. There is always a row.
pub open spec fn wrapped_glyphs(g: Seq<Glyph>, width: nat) -> Seq<Seq<SpanView>> {
    let rows = glyph_rows(g, 0, width as int);
    if rows.len() == 0 {
        seq![Seq::empty()]
    } else {
        rows.map_values(|r: Seq<Glyph>| glyph_spans(r))
    }
}

/// Word-wrap glyphs whose widths are known. A word is broken only where it does
/// not fit on an empty row.
pub fn wrap_glyphs(g: &[Glyph], width: usize) -> (rows: Vec<Vec<Span>>)
    ensures
        rows_view(rows@) == wrapped_glyphs(g@, width as nat),
{
    let ghost all = glyph_rows(g@, 0, width as int);
    let ghost want = all.map_values(|r: Seq<Glyph>| glyph_spans(r));
    let mut rows: Vec<Vec<Span>> = Vec::new();
    let mut i: usize = 0;
    let ghost mut left = all;
    let mut going: bool = true;
    assert(rows_view(rows@) =~= want.take(0));
    while going
        invariant
            i <= g@.len(),
            all == glyph_rows(g@, 0, width as int),
            want == all.map_values(|r: Seq<Glyph>| glyph_spans(r)),
            left == glyph_rows(g@, i as int, width as int),
            rows@.len() + left.len() == all.len(),
            left =~= all.skip(rows@.len() as int),
            rows_view(rows@) =~= want.take(rows@.len() as int),
            !going ==> left.len() == 0,
        decreases g@.len() - i, (if going { 1int } else { 0int }),
    {
        let s: usize = skip_white_from(g, i);
        if s >= g.len() {
            going = false;
        } else {
            let (e, next): (usize, usize) = cut_at(g, s, width);
            let piece: &[Glyph] = slice_subrange(g, s, e);
            let row: Vec<Span> = glyphs_to_spans(piece);
            let ghost rv = span_views(row@);
            let ghost before = rows_view(rows@);
            let ghost n = rows@.len() as int;
            proof {
                let tail = glyph_rows(g@, next as int, width as int);
                assert(left == seq![g@.subrange(s as int, e as int)] + tail);
                assert(left[0] == piece@);
                assert(all[n] == left[0]);
                assert(want[n] == rv);
                assert(tail =~= left.skip(1));
                left = tail;
            }
            rows.push(row);
            assert(rows_view(rows@) =~= before.push(rv));
            i = next;
        }
    }
    assert(want.take(rows@.len() as int) =~= want);
    if rows.len() == 0 {
        let none: Vec<Span> = Vec::new();
        assert(span_views(none@) =~= Seq::<SpanView>::empty());
        rows.push(none);
        assert(rows_view(rows@) =~= seq![Seq::<SpanView>::empty()]);
    }
    rows
}

/// Word-wrap styled spans, keeping style boundaries. A word is broken only
/// where it does not fit on an empty row.
pub fn wrap_styled_spans(spans: &[Span], width: usize) -> (rows: Vec<Vec<Span>>)
    ensures
        rows_view(rows@) == wrap(span_views(spans@), width as nat),
{
    let g: Vec<Glyph> = glyphs_of(spans);
    wrap_glyphs(g.as_slice(), width)
}

// ---- laws of wrapping -------------------------------------------------------
/// The characters of some glyphs that are not white.
pub open spec fn visible(g: Seq<Glyph>) -> Seq<char>
    decreases g.len(),
{
    if g.len() == 0 {
        Seq::empty()
    } else if white(g.last().ch) {
        visible(g.drop_last())
    } else {
        visible(g.drop_last()).push(g.last().ch)
    }
}

/// The characters of some rows of glyphs that are not white.
pub open spec fn visible_rows(rows: Seq<Seq<Glyph>>) -> Seq<char>
    decreases rows.len(),
{
    if rows.len() == 0 {
        Seq::empty()
    } else {
        visible(rows[0]) + visible_rows(rows.skip(1))
    }
}

/// What is visible in two runs is visible in the one behind the other.
proof fn lemma_visible_add(a: Seq<Glyph>, b: Seq<Glyph>)
    ensures
        visible(a + b) == visible(a) + visible(b),
    decreases b.len(),
{
    if b.len() == 0 {
        assert(a + b =~= a);
        assert(visible(b) =~= Seq::<char>::empty());
        assert(visible(a) + visible(b) =~= visible(a));
    } else {
        assert((a + b).drop_last() =~= a + b.drop_last());
        assert((a + b).last() == b.last());
        lemma_visible_add(a, b.drop_last());
        if !white(b.last().ch) {
            assert(visible(a) + visible(b) =~= (visible(a) + visible(b.drop_last())).push(
                b.last().ch,
            ));
        }
    }
}

/// Nothing is visible in a run of white.
proof fn lemma_visible_white(g: Seq<Glyph>)
    requires
        forall|k: int| 0 <= k < g.len() ==> white((#[trigger] g[k]).ch),
    ensures
        visible(g) == Seq::<char>::empty(),
    decreases g.len(),
{
    if g.len() > 0 {
        assert(white(g[g.len() - 1].ch));
        assert forall|k: int| 0 <= k < g.drop_last().len() implies white(
            (#[trigger] g.drop_last()[k]).ch,
        ) by {
            assert(g.drop_last()[k] == g[k]);
        }
        lemma_visible_white(g.drop_last());
    }
}

/// Wrapping loses no visible character and keeps their order.
pub proof fn wrapping_keeps_what_is_visible(g: Seq<Glyph>, i: int, width: nat)
    requires
        0 <= i <= g.len(),
    ensures
        visible_rows(glyph_rows(g, i, width as int)) == visible(g.skip(i)),
    decreases g.len() - i,
{
    let w = width as int;
    let s = skip_white(g, i);
    lemma_skip_white(g, i);
    let blank = g.subrange(i, s);
    assert forall|k: int| 0 <= k < blank.len() implies white((#[trigger] blank[k]).ch) by {
        assert(white(g[i + k].ch));
    }
    lemma_visible_white(blank);
    assert(g.skip(i) =~= blank + g.skip(s));
    lemma_visible_add(blank, g.skip(s));
    assert(visible(blank) + visible(g.skip(s)) =~= visible(g.skip(s)));
    if s < g.len() {
        lemma_cut(g, s, w);
        let (e, next) = cut(g, s, w);
        let row = g.subrange(s, e);
        let rest = glyph_rows(g, next, w);
        let rows = glyph_rows(g, i, w);
        assert(rows == seq![row] + rest);
        assert(rows[0] == row);
        assert(rows.skip(1) =~= rest);
        wrapping_keeps_what_is_visible(g, next, width);
        let gap = g.subrange(e, next);
        lemma_fit_end(g, s, 0, w);
        lemma_last_white(g, s, fit_end(g, s, 0, w));
        assert forall|k: int| 0 <= k < gap.len() implies white((#[trigger] gap[k]).ch) by {
            assert(gap[k] == g[e + k]);
        }
        lemma_visible_white(gap);
        assert(g.skip(s) =~= row + (gap + g.skip(next)));
        lemma_visible_add(row, gap + g.skip(next));
        lemma_visible_add(gap, g.skip(next));
        assert(visible(gap) + visible(g.skip(next)) =~= visible(g.skip(next)));
    } else {
        assert(g.skip(s) =~= Seq::<Glyph>::empty());
        assert(visible(g.skip(s)) =~= Seq::<char>::empty());
        assert(visible_rows(glyph_rows(g, i, w)) =~= Seq::<char>::empty());
    }
}

/// The cells that some glyphs take.
pub open spec fn glyph_cells(g: Seq<Glyph>) -> nat
    decreases g.len(),
{
    if g.len() == 0 {
        0
    } else {
        glyph_cells(g.drop_last()) + g.last().width as nat
    }
}

/// What fits takes no more cells than there are.
proof fn lemma_fit_cells(g: Seq<Glyph>, s: int, i: int, used: int, width: int)
    requires
        0 <= s <= i <= g.len(),
        used == glyph_cells(g.subrange(s, i)),
        used <= width,
    ensures
        forall|e: int|
            i <= e <= fit_end(g, i, used, width) ==> glyph_cells(#[trigger] g.subrange(s, e)) <= width,
    decreases g.len() - i,
{
    lemma_fit_end(g, i, used, width);
    if i < g.len() && used + g[i].width <= width {
        assert(g.subrange(s, i + 1).drop_last() =~= g.subrange(s, i));
        assert(g.subrange(s, i + 1).last() == g[i]);
        lemma_fit_cells(g, s, i + 1, used + g[i].width, width);
    }
}

/// Every row fits the width, except a row of one glyph that is too wide.
pub proof fn wrapped_rows_fit(g: Seq<Glyph>, i: int, width: nat, r: int)
    requires
        0 <= i <= g.len(),
        0 <= r < glyph_rows(g, i, width as int).len(),
    ensures
        glyph_cells(glyph_rows(g, i, width as int)[r]) <= width || glyph_rows(
            g,
            i,
            width as int,
        )[r].len() == 1,
    decreases g.len() - i,
{
    let w = width as int;
    let s = skip_white(g, i);
    lemma_skip_white(g, i);
    if s < g.len() {
        lemma_cut(g, s, w);
        let (e, next) = cut(g, s, w);
        let rest = glyph_rows(g, next, w);
        assert(glyph_rows(g, i, w) == seq![g.subrange(s, e)] + rest);
        if r == 0 {
            lemma_fit_end(g, s, 0, w);
            lemma_last_white(g, s, fit_end(g, s, 0, w));
            assert(g.subrange(s, s) =~= Seq::<Glyph>::empty());
            lemma_fit_cells(g, s, s, 0, w);
            if e <= fit_end(g, s, 0, w) {
                assert(glyph_cells(g.subrange(s, e)) <= w);
            } else {
                assert(g.subrange(s, e).len() == 1);
            }
        } else {
            assert(glyph_rows(g, i, w)[r] == rest[r - 1]);
            wrapped_rows_fit(g, next, width, r - 1);
        }
    }
}

// ---- tables -----------------------------------------------------------------
/// Numbers as natural numbers.
pub open spec fn nats(v: Seq<usize>) -> Seq<nat> {
    v.map_values(|n: usize| n as nat)
}

/// The sum of some numbers.
pub open spec fn total(v: Seq<nat>) -> nat
    decreases v.len(),
{
    if v.len() == 0 {
        0
    } else {
        total(v.drop_last()) + v.last()
    }
}

/// The middle corner that belongs to two outer ones.
pub open spec fn middle_of(left: char, right: char) -> Option<char> {
    if left == '┌' && right == '┐' {
        Some('┬')
    } else if left == '├' && right == '┤' {
        Some('┼')
    } else if left == '└' && right == '┘' {
        Some('┴')
    } else {
        None
    }
}

/// The cell widths of a border, `segment` dashes into a segment: each segment
/// is a cell and two cells of padding.
pub open spec fn border_widths(inner: Seq<char>, middle: char, segment: nat) -> Option<Seq<nat>>
    decreases inner.len(),
{
    if inner.len() == 0 {
        if segment < 2 {
            None
        } else {
            Some(seq![(segment - 2) as nat])
        }
    } else if inner[0] == '─' {
        border_widths(inner.skip(1), middle, segment + 1)
    } else if inner[0] == middle && segment >= 2 {
        match border_widths(inner.skip(1), middle, 0) {
            Some(w) => Some(seq![(segment - 2) as nat] + w),
            None => None,
        }
    } else {
        None
    }
}

/// A table border that was recognised.
#[derive(Debug)]
pub struct TableBorder {
    pub left: char,
    pub middle: char,
    pub right: char,
    pub widths: Vec<usize>,
    pub style: Style,
}

/// What such a border holds.
#[verifier::ext_equal]
pub struct BorderView {
    pub left: char,
    pub middle: char,
    pub right: char,
    pub widths: Seq<nat>,
    pub style: Style,
}

impl View for TableBorder {
    type V = BorderView;

    open spec fn view(&self) -> BorderView {
        BorderView {
            left: self.left,
            middle: self.middle,
            right: self.right,
            widths: nats(self.widths@),
            style: self.style,
        }
    }
}

/// The border that some spans draw: `┌──┬──┐`, `├──┼──┤` or `└──┴──┘`.
pub open spec fn border_in(spans: Seq<SpanView>) -> Option<BorderView> {
    let t = spans_text(spans);
    if t.len() == 0 {
        None
    } else {
        match middle_of(t[0], t.last()) {
            None => None,
            Some(middle) => match border_widths(t.subrange(1, t.len() - 1), middle, 0) {
                None => None,
                Some(widths) => Some(
                    BorderView {
                        left: t[0],
                        middle,
                        right: t.last(),
                        widths,
                        style: spans[0].style,
                    },
                ),
            },
        }
    }
}

/// What an optional border holds.
pub open spec fn border_option(b: Option<TableBorder>) -> Option<BorderView> {
    match b {
        Some(x) => Some(x@),
        None => None,
    }
}

/// Recognise a table border and recover each cell width.
pub fn table_border(spans: &[Span]) -> (r: Option<TableBorder>)
    ensures
        border_option(r) == border_in(span_views(spans@)),
{
    let ghost sv = span_views(spans@);
    let text: String = text_of_spans(spans);
    let t: Vec<char> = chars_of(text.as_str());
    let n: usize = t.len();
    if n == 0 {
        return None;
    }
    proof {
        if spans@.len() == 0 {
            assert(spans_text(sv) =~= Seq::<char>::empty());
        }
    }
    let left: char = t[0];
    let right: char = t[n - 1];
    let middle: char = if left == '┌' && right == '┐' {
        '┬'
    } else if left == '├' && right == '┤' {
        '┼'
    } else if left == '└' && right == '┘' {
        '┴'
    } else {
        return None;
    };
    let mut widths: Vec<usize> = Vec::new();
    let mut segment: usize = 0;
    let mut i: usize = 1;
    let ghost inner = t@.subrange(1, n - 1);
    let ghost want = border_widths(inner, middle, 0);
    assert(inner.skip(0) =~= inner);
    assert(forall|w: Seq<nat>| #[trigger] (nats(widths@) + w) =~= w);
    while i + 1 < n
        invariant
            1 <= i < n,
            n == t@.len(),
            segment < i,
            sv == span_views(spans@),
            t@ == spans_text(sv),
            middle_of(t@[0], t@.last()) == Some(middle),
            inner == t@.subrange(1, n - 1),
            want == border_widths(inner, middle, 0),
            match border_widths(inner.skip(i - 1), middle, segment as nat) {
                Some(w) => want == Some(nats(widths@) + w),
                None => want is None,
            },
        decreases n - i,
    {
        let c: char = t[i];
        let ghost here = inner.skip(i - 1);
        assert(here[0] == c);
        assert(here.skip(1) =~= inner.skip(i as int));
        let ghost before = nats(widths@);
        if c == '─' {
            segment += 1;
        } else if c == middle && segment >= 2 {
            widths.push(segment - 2);
            assert(nats(widths@) =~= before.push((segment - 2) as nat));
            proof {
                match border_widths(inner.skip(i as int), middle, 0) {
                    Some(w) => {
                        assert(before + (seq![(segment - 2) as nat] + w) =~= nats(widths@) + w);
                    },
                    None => {},
                }
            }
            segment = 0;
        } else {
            assert(border_widths(here, middle, segment as nat) is None);
            assert(want is None);
            return None;
        }
        i += 1;
    }
    assert(inner.skip(i - 1) =~= Seq::<char>::empty());
    if segment < 2 {
        return None;
    }
    let ghost before = nats(widths@);
    widths.push(segment - 2);
    assert(nats(widths@) =~= before + seq![(segment - 2) as nat]);
    assert(sv[0] == spans@[0]@);
    let style: Style = spans[0].style;
    Some(TableBorder { left, middle, right, widths, style })
}

/// The spans without blank ones in front, the first without white in front.
pub open spec fn trim_front(spans: Seq<SpanView>) -> Seq<SpanView>
    decreases spans.len(),
{
    if spans.len() == 0 {
        spans
    } else if trim(spans[0].content).len() == 0 {
        trim_front(spans.skip(1))
    } else {
        spans.update(0, span(trim_start(spans[0].content), spans[0].style))
    }
}

/// The spans without blank ones at the end, the last without white at its end.
pub open spec fn trim_back(spans: Seq<SpanView>) -> Seq<SpanView>
    decreases spans.len(),
{
    if spans.len() == 0 {
        spans
    } else if trim(spans.last().content).len() == 0 {
        trim_back(spans.drop_last())
    } else {
        spans.update(
            spans.len() - 1,
            span(trim_end(spans.last().content), spans.last().style),
        )
    }
}

/// Whether a text is blank.
pub fn is_blank(s: &str) -> (r: bool)
    ensures
        r == (trim(s@).len() == 0),
{
    let c: Vec<char> = chars_of(s);
    let t: Vec<char> = trim_of(c.as_slice());
    t.len() == 0
}

/// Remove table padding across span boundaries, keeping the styles.
pub fn trim_cell_spans(spans: &mut Vec<Span>)
    ensures
        span_views(final(spans)@) == trim_back(trim_front(span_views(old(spans)@))),
{
    let ghost start = span_views(spans@);
    while spans.len() > 0 && is_blank(spans[0].content.as_str())
        invariant
            trim_front(start) == trim_front(span_views(spans@)),
        decreases spans@.len(),
    {
        let ghost now = span_views(spans@);
        assert(now[0] == spans@[0]@);
        let _ = spans.remove(0);
        assert(span_views(spans@) =~= now.skip(1));
    }
    let ghost mid = span_views(spans@);
    if spans.len() > 0 {
        assert(mid[0] == spans@[0]@);
        let c: Vec<char> = chars_of(spans[0].content.as_str());
        let t: Vec<char> = trim_start_of(c.as_slice());
        let s = Span { content: text_of(t.as_slice()), style: spans[0].style };
        let ghost x = s@;
        spans[0] = s;
        assert(span_views(spans@) =~= mid.update(0, x));
    }
    let ghost front = trim_front(start);
    assert(span_views(spans@) == front);
    while spans.len() > 0 && is_blank(spans[spans.len() - 1].content.as_str())
        invariant
            trim_back(front) == trim_back(span_views(spans@)),
        decreases spans@.len(),
    {
        let ghost now = span_views(spans@);
        assert(now.last() == spans@[spans@.len() - 1]@);
        let _ = spans.pop();
        assert(span_views(spans@) =~= now.drop_last());
    }
    let n: usize = spans.len();
    let ghost mid = span_views(spans@);
    if n > 0 {
        assert(mid.last() == spans@[n - 1]@);
        let c: Vec<char> = chars_of(spans[n - 1].content.as_str());
        let t: Vec<char> = trim_end_of(c.as_slice());
        let s = Span { content: text_of(t.as_slice()), style: spans[n - 1].style };
        let ghost x = s@;
        spans[n - 1] = s;
        assert(span_views(spans@) =~= mid.update(n - 1, x));
    }
}

/// The bar that separates cells.
pub open spec fn is_bar(s: SpanView) -> bool {
    s.content == seq!['│']
}

/// The width of a padded cell without its padding.
pub open spec fn cell_room(cell: Seq<SpanView>) -> nat {
    let w = capped(spans_cells(cell));
    if w < 2 {
        0
    } else {
        (w - 2) as nat
    }
}

/// The cells of a row, the spans of the one being read given.
pub open spec fn cells_from(spans: Seq<SpanView>, cell: Seq<SpanView>) -> Seq<Seq<SpanView>>
    decreases spans.len(),
{
    if spans.len() == 0 {
        Seq::empty()
    } else if is_bar(spans[0]) {
        seq![cell] + cells_from(spans.skip(1), Seq::empty())
    } else {
        cells_from(spans.skip(1), cell.push(spans[0]))
    }
}

/// A table row that was recognised: its cells and their widths.
#[derive(Debug)]
pub struct TableRow {
    pub cells: Vec<Vec<Span>>,
    pub widths: Vec<usize>,
    pub style: Style,
}

/// What such a row holds.
#[verifier::ext_equal]
pub struct TableRowView {
    pub cells: Seq<Seq<SpanView>>,
    pub widths: Seq<nat>,
    pub style: Style,
}

impl View for TableRow {
    type V = TableRowView;

    open spec fn view(&self) -> TableRowView {
        TableRowView {
            cells: rows_view(self.cells@),
            widths: nats(self.widths@),
            style: self.style,
        }
    }
}

/// The table row that some spans draw: bars at both ends and cells between.
pub open spec fn row_in(spans: Seq<SpanView>) -> Option<TableRowView> {
    if spans.len() < 3 || !is_bar(spans[0]) || !is_bar(spans.last()) {
        None
    } else {
        let padded = cells_from(spans.skip(1), Seq::empty());
        Some(
            TableRowView {
                cells: padded.map_values(|c: Seq<SpanView>| trim_back(trim_front(c))),
                widths: padded.map_values(|c: Seq<SpanView>| cell_room(c)),
                style: spans[0].style,
            },
        )
    }
}

/// What an optional row holds.
pub open spec fn row_option(b: Option<TableRow>) -> Option<TableRowView> {
    match b {
        Some(x) => Some(x@),
        None => None,
    }
}

fn is_bar_span(s: &Span) -> (r: bool)
    ensures
        r == is_bar(s@),
{
    let bar: String = char_text('│');
    same(s.content.as_str(), bar.as_str())
}

/// Split a table row into cells, keeping styles and the padded width of each.
pub fn table_cells(spans: &[Span]) -> (r: Option<TableRow>)
    ensures
        row_option(r) == row_in(span_views(spans@)),
{
    let ghost sv = span_views(spans@);
    let n: usize = spans.len();
    if n < 3 {
        return None;
    }
    assert(sv[0] == spans@[0]@);
    assert(sv.last() == spans@[n - 1]@);
    if !is_bar_span(&spans[0]) || !is_bar_span(&spans[n - 1]) {
        return None;
    }
    let ghost padded = cells_from(sv.skip(1), Seq::empty());
    let ghost done_cells = padded.map_values(|c: Seq<SpanView>| trim_back(trim_front(c)));
    let ghost done_widths = padded.map_values(|c: Seq<SpanView>| cell_room(c));
    let ghost mut done: Seq<Seq<SpanView>> = Seq::empty();
    let mut cells: Vec<Vec<Span>> = Vec::new();
    let mut widths: Vec<usize> = Vec::new();
    let mut cell: Vec<Span> = Vec::new();
    let mut i: usize = 1;
    assert(span_views(cell@) =~= Seq::<SpanView>::empty());
    assert(done + padded =~= padded);
    while i < n
        invariant
            1 <= i <= n,
            n == spans@.len(),
            sv == span_views(spans@),
            padded == cells_from(sv.skip(1), Seq::empty()),
            done + cells_from(sv.skip(i as int), span_views(cell@)) == padded,
            rows_view(cells@) =~= done.map_values(|c: Seq<SpanView>| trim_back(trim_front(c))),
            nats(widths@) =~= done.map_values(|c: Seq<SpanView>| cell_room(c)),
        decreases n - i,
    {
        let ghost here = sv.skip(i as int);
        assert(here[0] == spans@[i as int]@);
        assert(here.skip(1) =~= sv.skip(i + 1));
        let ghost cv = span_views(cell@);
        let ghost rest = cells_from(sv.skip(i + 1), Seq::empty());
        if is_bar_span(&spans[i]) {
            let w: usize = spans_width(cell.as_slice());
            let room: usize = if w < 2 {
                0
            } else {
                w - 2
            };
            let ghost w0 = nats(widths@);
            let ghost c0 = rows_view(cells@);
            widths.push(room);
            assert(nats(widths@) =~= w0.push(room as nat));
            trim_cell_spans(&mut cell);
            let ghost tv = span_views(cell@);
            cells.push(cell);
            assert(rows_view(cells@) =~= c0.push(tv));
            cell = Vec::new();
            assert(span_views(cell@) =~= Seq::<SpanView>::empty());
            proof {
                assert(done + (seq![cv] + rest) =~= done.push(cv) + rest);
                done = done.push(cv);
            }
        } else {
            let s: Span = spans[i].clone();
            let ghost x = s@;
            cell.push(s);
            assert(span_views(cell@) =~= cv.push(x));
        }
        i += 1;
    }
    assert(sv.skip(i as int) =~= Seq::<SpanView>::empty());
    assert(done =~= padded);
    let style: Style = spans[0].style;
    Some(TableRow { cells, widths, style })
}

/// A number held between 1 and 8.
pub open spec fn preferred(n: nat) -> nat {
    if n < 1 {
        1
    } else if n > 8 {
        8
    } else {
        n
    }
}

/// A number, at the least 1.
pub open spec fn at_least_one(n: nat) -> nat {
    if n < 1 {
        1
    } else {
        n
    }
}

/// What the columns start from: 1 to 8 cells each where that fits, else 1.
pub open spec fn first_share(natural: Seq<nat>, budget: nat) -> Seq<nat> {
    let p = natural.map_values(|n: nat| preferred(n));
    if total(p) <= budget {
        p
    } else {
        natural.map_values(|n: nat| 1nat)
    }
}

/// A column after `r` rounds of one cell each, a further one for those before
/// column `k`: never more than it has to show.
pub open spec fn after_rounds(start: nat, natural: nat, i: int, r: nat, k: int) -> nat {
    let more = start + r + if i < k {
        1nat
    } else {
        0nat
    };
    if more > at_least_one(natural) {
        at_least_one(natural)
    } else {
        more
    }
}

/// The widths are the first shares and then rounds of one cell for each column
/// that still has something to show, until the budget is spent.
pub open spec fn shared(natural: Seq<nat>, budget: nat, w: Seq<nat>) -> bool {
    &&& w.len() == natural.len()
    &&& total(w) == budget
    &&& exists|r: nat, k: int| #[trigger] rounds(natural, budget, w, r, k)
}

/// The widths are those after `r` rounds and `k` columns of the next.
pub open spec fn rounds(natural: Seq<nat>, budget: nat, w: Seq<nat>, r: nat, k: int) -> bool {
    &&& 0 <= k <= natural.len()
    &&& w.len() == natural.len()
    &&& forall|i: int|
        0 <= i < natural.len() ==> #[trigger] w[i] == after_rounds(
            first_share(natural, budget)[i],
            natural[i],
            i,
            r,
            k,
        )
}

/// The cells that the columns of a table may use: what the bars and the padding
/// leave. There have to be columns, and a cell for each.
pub open spec fn column_budget(columns: nat, table_width: nat) -> Option<nat> {
    if columns == 0 || table_width < 3 * columns + 1 || table_width - (3 * columns + 1) < columns {
        None
    } else {
        Some((table_width - (3 * columns + 1)) as nat)
    }
}

/// The widths of the columns of a table: the natural ones where they fit, else
/// the budget shared out.
pub open spec fn column_widths(natural: Seq<nat>, table_width: nat) -> Option<Seq<nat>> {
    match column_budget(natural.len(), table_width) {
        None => None,
        Some(budget) => if total(natural) <= budget {
            Some(natural)
        } else {
            Some(choose|w: Seq<nat>| shared(natural, budget, w))
        },
    }
}

/// Sums keep the order, and equal sums of ordered columns are of equal columns.
proof fn lemma_total_le(a: Seq<nat>, b: Seq<nat>)
    requires
        a.len() == b.len(),
        forall|i: int| 0 <= i < a.len() ==> #[trigger] a[i] <= b[i],
    ensures
        total(a) <= total(b),
        total(a) == total(b) ==> a == b,
    decreases a.len(),
{
    if a.len() > 0 {
        assert(a[a.len() - 1] <= b[a.len() - 1]);
        assert forall|i: int| 0 <= i < a.drop_last().len() implies #[trigger] a.drop_last()[i]
            <= b.drop_last()[i] by {
            assert(a[i] <= b[i]);
        }
        lemma_total_le(a.drop_last(), b.drop_last());
        if total(a) == total(b) {
            assert(a =~= a.drop_last().push(a.last()));
            assert(b =~= b.drop_last().push(b.last()));
        }
    } else {
        assert(a =~= b);
    }
}

/// There is one way to share out a budget.
proof fn lemma_shared_unique(natural: Seq<nat>, budget: nat, a: Seq<nat>, b: Seq<nat>)
    requires
        shared(natural, budget, a),
        shared(natural, budget, b),
    ensures
        a == b,
{
    let (r1, k1) = choose|r: nat, k: int| #[trigger] rounds(natural, budget, a, r, k);
    let (r2, k2) = choose|r: nat, k: int| #[trigger] rounds(natural, budget, b, r, k);
    if r1 < r2 || (r1 == r2 && k1 <= k2) {
        assert forall|i: int| 0 <= i < a.len() implies #[trigger] a[i] <= b[i] by {
            assert(b[i] == b[i]);
        }
        lemma_total_le(a, b);
    } else {
        assert forall|i: int| 0 <= i < b.len() implies #[trigger] b[i] <= a[i] by {
            assert(a[i] == a[i]);
        }
        lemma_total_le(b, a);
    }
}

/// A sum with one term changed.
proof fn lemma_total_update(v: Seq<nat>, i: int, x: nat)
    requires
        0 <= i < v.len(),
    ensures
        total(v.update(i, x)) == total(v) - v[i] + x,
    decreases v.len(),
{
    if i == v.len() - 1 {
        assert(v.update(i, x).drop_last() =~= v.drop_last());
    } else {
        assert(v.update(i, x).drop_last() =~= v.drop_last().update(i, x));
        assert(v.update(i, x).last() == v.last());
        lemma_total_update(v.drop_last(), i, x);
    }
}

/// A sum of ones is their number.
proof fn lemma_total_ones(v: Seq<nat>)
    requires
        forall|i: int| 0 <= i < v.len() ==> #[trigger] v[i] == 1,
    ensures
        total(v) == v.len(),
    decreases v.len(),
{
    if v.len() > 0 {
        assert(v[v.len() - 1] == 1);
        assert forall|i: int| 0 <= i < v.drop_last().len() implies #[trigger] v.drop_last()[i]
            == 1 by {
            assert(v[i] == 1);
        }
        lemma_total_ones(v.drop_last());
    }
}

/// The sum of some numbers, or the largest number there is.
fn total_of(v: &[usize]) -> (n: usize)
    ensures
        n == capped(total(nats(v@))),
{
    let ghost all = nats(v@);
    let mut n: usize = 0;
    let mut i: usize = 0;
    while i < v.len()
        invariant
            i <= v@.len(),
            all == nats(v@),
            n == capped(total(all.take(i as int))),
        decreases v@.len() - i,
    {
        n = n.saturating_add(v[i]);
        i += 1;
        assert(all.take(i as int).drop_last() =~= all.take(i - 1));
    }
    assert(all.take(i as int) =~= all);
    n
}

/// A term is no more than the sum.
proof fn lemma_term_le_total(v: Seq<nat>, i: int)
    requires
        0 <= i < v.len(),
    ensures
        v[i] <= total(v),
    decreases v.len(),
{
    if i < v.len() - 1 {
        lemma_term_le_total(v.drop_last(), i);
    }
}

/// Columns that share a budget stay within it.
proof fn lemma_columns_bounded(w: Seq<usize>, budget: nat)
    requires
        total(nats(w)) <= budget,
    ensures
        forall|i: int| 0 <= i < w.len() ==> #[trigger] w[i] <= budget,
{
    assert forall|i: int| 0 <= i < w.len() implies #[trigger] w[i] <= budget by {
        lemma_term_le_total(nats(w), i);
    }
}

/// The first shares of the columns.
fn first_shares(natural: &[usize], budget: usize) -> (w: Vec<usize>)
    requires
        budget < usize::MAX,
    ensures
        nats(w@) == first_share(nats(natural@), budget as nat),
{
    let ghost all = nats(natural@);
    let ghost p = all.map_values(|n: nat| preferred(n));
    let mut wide: Vec<usize> = Vec::new();
    let mut i: usize = 0;
    while i < natural.len()
        invariant
            i <= natural@.len(),
            all == nats(natural@),
            p == all.map_values(|n: nat| preferred(n)),
            nats(wide@) =~= p.take(i as int),
        decreases natural@.len() - i,
    {
        let ghost before = nats(wide@);
        let n: usize = if natural[i] < 1 {
            1
        } else if natural[i] > 8 {
            8
        } else {
            natural[i]
        };
        wide.push(n);
        i += 1;
        assert(nats(wide@) =~= before.push(n as nat));
    }
    assert(p.take(i as int) =~= p);
    if total_of(wide.as_slice()) <= budget {
        return wide;
    }
    let ghost ones = all.map_values(|n: nat| 1nat);
    let mut narrow: Vec<usize> = Vec::new();
    let mut i: usize = 0;
    while i < natural.len()
        invariant
            i <= natural@.len(),
            all == nats(natural@),
            ones == all.map_values(|n: nat| 1nat),
            nats(narrow@) =~= ones.take(i as int),
        decreases natural@.len() - i,
    {
        let ghost before = nats(narrow@);
        narrow.push(1);
        i += 1;
        assert(nats(narrow@) =~= before.push(1nat));
    }
    assert(ones.take(i as int) =~= ones);
    narrow
}

/// Share the inner width out among the columns: short columns keep their
/// natural width, wide ones give way first.
pub fn constrained_table_widths(natural: &[usize], table_width: usize) -> (r: Option<Vec<usize>>)
    ensures
        match r {
            Some(w) => column_widths(nats(natural@), table_width as nat) == Some(nats(w@))
                && w@.len() == natural@.len() && (forall|i: int|
                0 <= i < w@.len() ==> #[trigger] w@[i] <= usize::MAX - 2) && (column_budget(
                natural@.len(),
                table_width as nat,
            ) matches Some(budget) && (total(nats(natural@)) > budget ==> shared(
                nats(natural@),
                budget,
                nats(w@),
            ))),
            None => column_widths(nats(natural@), table_width as nat) is None,
        },
{
    let ghost all = nats(natural@);
    let columns: usize = natural.len();
    if columns == 0 || columns > (usize::MAX - 1) / 3 {
        return None;
    }
    let chrome: usize = columns * 3 + 1;
    if table_width < chrome || table_width - chrome < columns {
        return None;
    }
    let budget: usize = table_width - chrome;
    if total_of(natural) <= budget {
        let mut w: Vec<usize> = Vec::new();
        let mut i: usize = 0;
        while i < natural.len()
            invariant
                i <= natural@.len(),
                w@ =~= natural@.take(i as int),
            decreases natural@.len() - i,
        {
            w.push(natural[i]);
            i += 1;
        }
        assert(w@ =~= natural@);
        proof {
            lemma_columns_bounded(w@, budget as nat);
        }
        return Some(w);
    }
    let ghost start = first_share(all, budget as nat);
    let mut w: Vec<usize> = first_shares(natural, budget);
    let ghost w0 = nats(w@);
    proof {
        let p = all.map_values(|n: nat| preferred(n));
        if total(p) > budget {
            assert forall|i: int| 0 <= i < w0.len() implies #[trigger] w0[i] == 1 by {}
            lemma_total_ones(w0);
        }
        assert(total(w0) <= budget);
        assert forall|i: int| 0 <= i < all.len() implies #[trigger] w0[i] == after_rounds(
            start[i],
            all[i],
            i,
            0,
            0,
        ) by {}
    }
    let spent: usize = total_of(w.as_slice());
    let mut remaining: usize = budget - spent;
    let ghost mut r: nat = 0;
    assert(rounds(all, budget as nat, w0, 0, 0));
    while remaining > 0
        invariant
            all == nats(natural@),
            columns == natural@.len(),
            w@.len() == columns,
            budget < usize::MAX,
            column_budget(all.len(), table_width as nat) == Some(budget as nat),
            total(all) > budget,
            start == first_share(all, budget as nat),
            rounds(all, budget as nat, nats(w@), r, 0),
            total(nats(w@)) + remaining == budget,
        decreases remaining,
    {
        let ghost before = remaining;
        let mut progressed: bool = false;
        let mut i: usize = 0;
        while i < columns
            invariant
                i <= columns,
                all == nats(natural@),
                columns == natural@.len(),
                w@.len() == columns,
                budget < usize::MAX,
                column_budget(all.len(), table_width as nat) == Some(budget as nat),
                total(all) > budget,
                start == first_share(all, budget as nat),
                rounds(all, budget as nat, nats(w@), r, i as int),
                total(nats(w@)) + remaining == budget,
                remaining <= before,
                before > 0,
                progressed ==> remaining < before,
                !progressed ==> remaining == before && forall|j: int|
                    0 <= j < i ==> nats(w@)[j] == at_least_one(#[trigger] all[j]),
            decreases columns - i,
        {
            let ghost v = nats(w@);
            if remaining == 0 {
                assert(shared(all, budget as nat, v));
                proof {
                    let c = choose|c: Seq<nat>| shared(all, budget as nat, c);
                    lemma_shared_unique(all, budget as nat, c, v);
                    lemma_columns_bounded(w@, budget as nat);
                }
                return Some(w);
            }
            let target: usize = if natural[i] < 1 {
                1
            } else {
                natural[i]
            };
            assert(v[i as int] == after_rounds(start[i as int], all[i as int], i as int, r, i as int));
            if w[i] < target {
                let more: usize = w[i] + 1;
                w[i] = more;
                remaining -= 1;
                progressed = true;
                proof {
                    assert(nats(w@) =~= v.update(i as int, more as nat));
                    lemma_total_update(v, i as int, more as nat);
                }
            }
            proof {
                let u = nats(w@);
                assert forall|j: int| 0 <= j < all.len() implies #[trigger] u[j] == after_rounds(
                    start[j],
                    all[j],
                    j,
                    r,
                    i + 1,
                ) by {
                    assert(v[j] == after_rounds(start[j], all[j], j, r, i as int));
                }
            }
            i += 1;
        }
        let ghost u = nats(w@);
        proof {
            assert forall|j: int| 0 <= j < all.len() implies #[trigger] u[j] == after_rounds(
                start[j],
                all[j],
                j,
                r + 1,
                0,
            ) by {
                assert(u[j] == after_rounds(start[j], all[j], j, r, columns as int));
            }
            r = r + 1;
        }
        if !progressed {
            proof {
                assert forall|j: int| 0 <= j < all.len() implies #[trigger] all[j] <= u[j] by {
                    assert(u[j] == at_least_one(all[j]));
                }
                lemma_total_le(all, u);
                assert(false);
            }
        }
    }
    let ghost v = nats(w@);
    assert(shared(all, budget as nat, v));
    proof {
        let c = choose|c: Seq<nat>| shared(all, budget as nat, c);
        lemma_shared_unique(all, budget as nat, c, v);
        lemma_columns_bounded(w@, budget as nat);
    }
    Some(w)
}

/// From any stage of the rounds the budget comes to be spent.
proof fn lemma_share_goes_on(natural: Seq<nat>, budget: nat, w: Seq<nat>, r: nat, k: int)
    requires
        rounds(natural, budget, w, r, k),
        total(w) <= budget,
        total(natural) > budget,
    ensures
        exists|v: Seq<nat>| shared(natural, budget, v),
    decreases total(natural) + 1 - r, natural.len() - k,
{
    let start = first_share(natural, budget);
    if total(w) == budget {
        assert(shared(natural, budget, w));
    } else if r > total(natural) {
        assert forall|i: int| 0 <= i < natural.len() implies #[trigger] natural[i] <= w[i] by {
            lemma_term_le_total(natural, i);
            assert(w[i] == after_rounds(start[i], natural[i], i, r, k));
        }
        lemma_total_le(natural, w);
    } else if k < natural.len() {
        let x = after_rounds(start[k], natural[k], k, r, k + 1);
        let v = w.update(k, x);
        lemma_total_update(w, k, x);
        assert(w[k] == after_rounds(start[k], natural[k], k, r, k));
        assert forall|i: int| 0 <= i < natural.len() implies #[trigger] v[i] == after_rounds(
            start[i],
            natural[i],
            i,
            r,
            k + 1,
        ) by {
            assert(w[i] == after_rounds(start[i], natural[i], i, r, k));
        }
        lemma_share_goes_on(natural, budget, v, r, k + 1);
    } else {
        assert forall|i: int| 0 <= i < natural.len() implies #[trigger] w[i] == after_rounds(
            start[i],
            natural[i],
            i,
            r + 1,
            0,
        ) by {
            assert(w[i] == after_rounds(start[i], natural[i], i, r, k));
        }
        lemma_share_goes_on(natural, budget, w, r + 1, 0);
    }
}

/// A table that does not fit is narrowed to exactly the width it has: the bars,
/// the padding and the columns together.
pub proof fn narrowed_columns_fill_the_width(natural: Seq<nat>, table_width: nat)
    requires
        column_budget(natural.len(), table_width) is Some,
        total(natural) > column_budget(natural.len(), table_width)->0,
    ensures
        column_widths(natural, table_width) is Some,
        column_widths(natural, table_width)->0.len() == natural.len(),
        total(column_widths(natural, table_width)->0) + 3 * natural.len() + 1 == table_width,
        shared(
            natural,
            column_budget(natural.len(), table_width)->0,
            column_widths(natural, table_width)->0,
        ),
{
    let budget = column_budget(natural.len(), table_width)->0;
    let start = first_share(natural, budget);
    let p = natural.map_values(|n: nat| preferred(n));
    if total(p) > budget {
        assert forall|i: int| 0 <= i < start.len() implies #[trigger] start[i] == 1 by {}
        lemma_total_ones(start);
    }
    assert forall|i: int| 0 <= i < natural.len() implies #[trigger] start[i] == after_rounds(
        start[i],
        natural[i],
        i,
        0,
        0,
    ) by {}
    assert(rounds(natural, budget, start, 0, 0));
    lemma_share_goes_on(natural, budget, start, 0, 0);
}

// ---- rebuilding table lines -------------------------------------------------
/// A border with these columns, without its right corner.
pub open spec fn border_left(widths: Seq<nat>, left: char, middle: char, n: nat) -> Seq<char>
    decreases n,
{
    if n == 0 {
        seq![left]
    } else {
        let before = border_left(widths, left, middle, (n - 1) as nat);
        let joint = if n > 1 {
            before.push(middle)
        } else {
            before
        };
        joint + repeat('─', widths[n - 1] + 2)
    }
}

/// A border line with these columns, behind an optional gutter.
pub open spec fn border_line(gutter: Option<SpanView>, widths: Seq<nat>, b: BorderView) -> LineView {
    let text = border_left(widths, b.left, b.middle, widths.len()).push(b.right);
    match gutter {
        Some(g) => line(seq![g, span(text, b.style)]),
        None => line(seq![span(text, b.style)]),
    }
}

/// What an optional span holds.
pub open spec fn span_option(s: Option<Span>) -> Option<SpanView> {
    match s {
        Some(x) => Some(x@),
        None => None,
    }
}

/// A border line with these columns, behind an optional gutter.
pub fn render_constrained_border(gutter: Option<Span>, widths: &[usize], b: &TableBorder) -> (l: Line)
    requires
        forall|i: int| 0 <= i < widths@.len() ==> #[trigger] widths@[i] <= usize::MAX - 2,
    ensures
        l@ == border_line(span_option(gutter), nats(widths@), b@),
{
    let ghost w = nats(widths@);
    let mut text: Vec<char> = Vec::new();
    text.push(b.left);
    let mut i: usize = 0;
    assert(text@ =~= border_left(w, b.left, b.middle, 0));
    while i < widths.len()
        invariant
            i <= widths@.len(),
            w == nats(widths@),
            text@ == border_left(w, b.left, b.middle, i as nat),
            forall|i: int| 0 <= i < widths@.len() ==> #[trigger] widths@[i] <= usize::MAX - 2,
        decreases widths@.len() - i,
    {
        if i > 0 {
            text.push(b.middle);
        }
        push_repeat(&mut text, '─', widths[i] + 2);
        i += 1;
    }
    text.push(b.right);
    let mut spans: Vec<Span> = Vec::new();
    match gutter {
        Some(g) => {
            let ghost gv = g@;
            spans.push(g);
            let s = Span::of(text.as_slice(), b.style);
            let ghost sv = s@;
            spans.push(s);
            assert(span_views(spans@) =~= seq![gv, sv]);
        },
        None => {
            let s = Span::of(text.as_slice(), b.style);
            let ghost sv = s@;
            spans.push(s);
            assert(span_views(spans@) =~= seq![sv]);
        },
    }
    Line::new(spans)
}

/// The cell of a physical row: what the wrapped column has there, if anything.
pub open spec fn cell_at(wrapped: Seq<Seq<Seq<SpanView>>>, column: int, row: int) -> Seq<SpanView> {
    if 0 <= column < wrapped.len() && 0 <= row < wrapped[column].len() {
        wrapped[column][row]
    } else {
        Seq::empty()
    }
}

/// The first `n` columns of a physical row.
pub open spec fn columns_at(
    wrapped: Seq<Seq<Seq<SpanView>>>,
    widths: Seq<nat>,
    style: Style,
    row: int,
    n: nat,
) -> Seq<SpanView>
    decreases n,
{
    if n == 0 {
        Seq::empty()
    } else {
        let content = cell_at(wrapped, n - 1, row);
        let used = capped(spans_cells(content));
        let filler = if used < widths[n - 1] {
            seq![raw(repeat(' ', (widths[n - 1] - used) as nat))]
        } else {
            Seq::empty()
        };
        columns_at(wrapped, widths, style, row, (n - 1) as nat) + seq![span(seq![' '], style)]
            + content + filler + seq![span(seq![' ', '│'], style)]
    }
}

/// What leads a physical row: the gutter on the first, as much room on others.
pub open spec fn lead(gutter: Option<SpanView>, gutter_width: nat, row: int) -> Seq<SpanView> {
    if row == 0 {
        match gutter {
            Some(g) => seq![g],
            None => Seq::empty(),
        }
    } else if gutter_width > 0 {
        seq![raw(repeat(' ', gutter_width))]
    } else {
        Seq::empty()
    }
}

/// A physical row of a table.
pub open spec fn physical_row(
    gutter: Option<SpanView>,
    gutter_width: nat,
    wrapped: Seq<Seq<Seq<SpanView>>>,
    widths: Seq<nat>,
    style: Style,
    row: int,
) -> LineView {
    line(
        lead(gutter, gutter_width, row) + seq![span(seq!['│'], style)] + columns_at(
            wrapped,
            widths,
            style,
            row,
            widths.len(),
        ),
    )
}

/// The largest number of rows among the first `n` wrapped cells.
pub open spec fn tallest(wrapped: Seq<Seq<Seq<SpanView>>>, n: nat) -> nat
    decreases n,
{
    if n == 0 {
        0
    } else {
        let before = tallest(wrapped, (n - 1) as nat);
        if wrapped[n - 1].len() > before {
            wrapped[n - 1].len()
        } else {
            before
        }
    }
}

/// The cells of a row that have a column, each wrapped to it.
pub open spec fn wrapped_cells(cells: Seq<Seq<SpanView>>, widths: Seq<nat>) -> Seq<
    Seq<Seq<SpanView>>,
> {
    Seq::new(
        if cells.len() < widths.len() {
            cells.len()
        } else {
            widths.len()
        },
        |i: int| wrap(cells[i], widths[i]),
    )
}

/// A table row rebuilt with narrower columns.
pub open spec fn narrow_row(
    gutter: Option<SpanView>,
    gutter_width: nat,
    cells: Seq<Seq<SpanView>>,
    widths: Seq<nat>,
    style: Style,
) -> Seq<LineView> {
    let wrapped = wrapped_cells(cells, widths);
    let height = if wrapped.len() == 0 {
        1
    } else {
        tallest(wrapped, wrapped.len())
    };
    Seq::new(height, |row: int| physical_row(gutter, gutter_width, wrapped, widths, style, row))
}

/// What the wrapped cells of a row hold.
pub open spec fn wrapped_view(w: Seq<Vec<Vec<Span>>>) -> Seq<Seq<Seq<SpanView>>> {
    w.map_values(|c: Vec<Vec<Span>>| rows_view(c@))
}

/// A run of spaces.
fn spaces(n: usize) -> (s: Span)
    ensures
        s@ == raw(repeat(' ', n as nat)),
{
    let mut v: Vec<char> = Vec::new();
    push_repeat(&mut v, ' ', n);
    assert(v@ =~= repeat(' ', n as nat));
    Span::of(v.as_slice(), Style::plain())
}

/// One physical row of a table.
fn physical_row_of(
    gutter: &Option<Span>,
    gutter_width: usize,
    wrapped: &Vec<Vec<Vec<Span>>>,
    widths: &[usize],
    style: Style,
    row: usize,
) -> (l: Line)
    ensures
        l@ == physical_row(
            span_option(*gutter),
            gutter_width as nat,
            wrapped_view(wrapped@),
            nats(widths@),
            style,
            row as int,
        ),
{
    let ghost wv = wrapped_view(wrapped@);
    let ghost w = nats(widths@);
    let mut spans: Vec<Span> = Vec::new();
    let ghost front = lead(span_option(*gutter), gutter_width as nat, row as int);
    if row == 0 {
        match gutter {
            Some(g) => {
                let s: Span = g.clone();
                let ghost sv = s@;
                spans.push(s);
                assert(span_views(spans@) =~= seq![sv]);
            },
            None => {
                assert(span_views(spans@) =~= front);
            },
        }
    } else if gutter_width > 0 {
        let s: Span = spaces(gutter_width);
        let ghost sv = s@;
        spans.push(s);
        assert(span_views(spans@) =~= seq![sv]);
    } else {
        assert(span_views(spans@) =~= front);
    }
    let bar: Vec<char> = vec!['│'];
    assert(bar@ =~= seq!['│']);
    let s: Span = Span::of(bar.as_slice(), style);
    let ghost sv = s@;
    spans.push(s);
    let ghost front = front + seq![sv];
    assert(span_views(spans@) =~= front);
    let gap: Vec<char> = vec![' '];
    let end: Vec<char> = vec![' ', '│'];
    assert(gap@ =~= seq![' ']);
    assert(end@ =~= seq![' ', '│']);
    let mut i: usize = 0;
    while i < widths.len()
        invariant
            i <= widths@.len(),
            w == nats(widths@),
            wv == wrapped_view(wrapped@),
            gap@ == seq![' '],
            end@ == seq![' ', '│'],
            span_views(spans@) =~= front + columns_at(wv, w, style, row as int, i as nat),
        decreases widths@.len() - i,
    {
        let ghost before = span_views(spans@);
        let g: Span = Span::of(gap.as_slice(), style);
        let ghost gv = g@;
        spans.push(g);
        assert(span_views(spans@) =~= before + seq![gv]);
        let content: Vec<Span> = if i < wrapped.len() && row < wrapped[i].len() {
            assert(wv[i as int] == rows_view(wrapped@[i as int]@));
            assert(wv[i as int][row as int] == span_views(wrapped@[i as int]@[row as int]@));
            copy_spans(wrapped[i][row].as_slice())
        } else {
            Vec::new()
        };
        let ghost cv = cell_at(wv, i as int, row as int);
        assert(span_views(content@) =~= cv);
        let used: usize = spans_width(content.as_slice());
        append_spans(&mut spans, content);
        let ghost filler: Seq<SpanView> = if used < w[i as int] {
            seq![raw(repeat(' ', (w[i as int] - used) as nat))]
        } else {
            Seq::empty()
        };
        let ghost mid = span_views(spans@);
        if used < widths[i] {
            let f: Span = spaces(widths[i] - used);
            let ghost fv = f@;
            spans.push(f);
            assert(span_views(spans@) =~= mid + seq![fv]);
        }
        assert(span_views(spans@) =~= mid + filler);
        let ghost mid = span_views(spans@);
        let e: Span = Span::of(end.as_slice(), style);
        let ghost ev = e@;
        spans.push(e);
        assert(span_views(spans@) =~= mid + seq![ev]);
        i += 1;
    }
    Line::new(spans)
}

/// A table row rebuilt with narrower columns: its cells wrap inside them and
/// every bar still meets the border.
pub fn render_constrained_row(
    gutter: Option<Span>,
    gutter_width: usize,
    cells: &Vec<Vec<Span>>,
    widths: &[usize],
    style: Style,
) -> (lines: Vec<Line>)
    ensures
        line_views(lines@) == narrow_row(
            span_option(gutter),
            gutter_width as nat,
            rows_view(cells@),
            nats(widths@),
            style,
        ),
{
    let ghost cv = rows_view(cells@);
    let ghost w = nats(widths@);
    let ghost want = wrapped_cells(cv, w);
    let mut wrapped: Vec<Vec<Vec<Span>>> = Vec::new();
    let mut height: usize = 0;
    let mut i: usize = 0;
    while i < cells.len() && i < widths.len()
        invariant
            i <= cells@.len(),
            i <= widths@.len(),
            cv == rows_view(cells@),
            w == nats(widths@),
            want == wrapped_cells(cv, w),
            wrapped_view(wrapped@) =~= want.take(i as int),
            height == tallest(want, i as nat),
        decreases cells@.len() - i,
    {
        let ghost before = wrapped_view(wrapped@);
        let c: Vec<Vec<Span>> = wrap_styled_spans(cells[i].as_slice(), widths[i]);
        let ghost x = rows_view(c@);
        assert(cv[i as int] == span_views(cells@[i as int]@));
        assert(x == want[i as int]);
        assert(x.len() == c@.len());
        if c.len() > height {
            height = c.len();
        }
        wrapped.push(c);
        i += 1;
        assert(wrapped_view(wrapped@) =~= before.push(x));
    }
    assert(wrapped_view(wrapped@) =~= want);
    if wrapped.len() == 0 {
        height = 1;
    }
    let ghost all = narrow_row(span_option(gutter), gutter_width as nat, cv, w, style);
    let mut lines: Vec<Line> = Vec::new();
    let mut row: usize = 0;
    while row < height
        invariant
            row <= height,
            height == all.len(),
            cv == rows_view(cells@),
            w == nats(widths@),
            want == wrapped_cells(cv, w),
            wrapped_view(wrapped@) == want,
            all == narrow_row(span_option(gutter), gutter_width as nat, cv, w, style),
            line_views(lines@) =~= all.take(row as int),
        decreases height - row,
    {
        let ghost before = line_views(lines@);
        let l: Line = physical_row_of(&gutter, gutter_width, &wrapped, widths, style, row);
        let ghost lv = l@;
        assert(lv == all[row as int]);
        lines.push(l);
        row += 1;
        assert(line_views(lines@) =~= before.push(lv));
    }
    assert(all.take(row as int) =~= all);
    lines
}

// ---- fitting a line ---------------------------------------------------------
/// The line opens with the two-cell gutter of assistant output: two spaces, or
/// the mark and white ending in a space.
pub open spec fn has_gutter(l: LineView) -> bool {
    l.spans.len() > 0 && {
        let c = l.spans[0].content;
        c == seq![' ', ' '] || (c.len() > 0 && c.last() == ' ' && trim_end(c) == DEFAULT_LOGO@)
    }
}

/// Whether the line opens with the gutter of assistant output.
pub fn assistant_gutter(l: &Line) -> (r: bool)
    ensures
        r == has_gutter(l@),
{
    if l.spans.len() == 0 {
        return false;
    }
    assert(l@.spans[0] == l.spans@[0]@);
    let c: Vec<char> = chars_of(l.spans[0].content.as_str());
    if c.len() == 2 && c[0] == ' ' && c[1] == ' ' {
        assert(c@ =~= seq![' ', ' ']);
        return true;
    }
    assert(c@ != seq![' ', ' ']) by {
        if c@ == seq![' ', ' '] {
            assert(c@.len() == 2 && c@[0] == ' ' && c@[1] == ' ');
        }
    }
    if c.len() == 0 || c[c.len() - 1] != ' ' {
        return false;
    }
    let t: Vec<char> = trim_end_of(c.as_slice());
    same(text_of(t.as_slice()).as_str(), DEFAULT_LOGO)
}

/// Assistant prose wrapped under its gutter.
pub open spec fn wrapped_prose(l: LineView, width: nat, gutter_width: nat) -> Seq<LineView> {
    let room = if width > gutter_width {
        (width - gutter_width) as nat
    } else {
        1
    };
    wrap(l.spans.skip(1), room).map(
        |i: int, row: Seq<SpanView>|
            LineView {
                spans: seq![
                    if i == 0 {
                        l.spans[0]
                    } else {
                        raw(repeat(' ', gutter_width))
                    },
                ] + row,
                style: l.style,
            },
    )
}

/// Wrap assistant prose with the same gutter on every physical row.
pub fn wrap_assistant_line(l: &Line, width: usize, gutter_width: usize) -> (lines: Vec<Line>)
    requires
        l.spans@.len() > 0,
    ensures
        line_views(lines@) == wrapped_prose(l@, width as nat, gutter_width as nat),
{
    let room: usize = if width > gutter_width {
        width - gutter_width
    } else {
        1
    };
    let n: usize = l.spans.len();
    let content: &[Span] = slice_subrange(l.spans.as_slice(), 1, n);
    assert(span_views(content@) =~= l@.spans.skip(1));
    let mut rows: Vec<Vec<Span>> = wrap_styled_spans(content, room);
    let ghost rv = rows_view(rows@);
    let ghost all = wrapped_prose(l@, width as nat, gutter_width as nat);
    let total_rows: usize = rows.len();
    assert(rv.len() == total_rows);
    let mut lines: Vec<Line> = Vec::new();
    let mut i: usize = 0;
    assert(l@.spans[0] == l.spans@[0]@);
    while i < total_rows
        invariant
            i <= total_rows,
            total_rows == rv.len(),
            rows@.len() == total_rows,
            rows_view(rows@) == rv,
            l.spans@.len() > 0,
            l@.spans[0] == l.spans@[0]@,
            all == wrapped_prose(l@, width as nat, gutter_width as nat),
            rv == wrap(l@.spans.skip(1), room as nat),
            room == (if width > gutter_width { width - gutter_width } else { 1 }),
            line_views(lines@) =~= all.take(i as int),
        decreases total_rows - i,
    {
        let ghost before = line_views(lines@);
        let mut spans: Vec<Span> = Vec::new();
        let first: Span = if i == 0 {
            l.spans[0].clone()
        } else {
            spaces(gutter_width)
        };
        let ghost fv = first@;
        spans.push(first);
        assert(span_views(spans@) =~= seq![fv]);
        assert(rv[i as int] == span_views(rows@[i as int]@));
        append_spans(&mut spans, copy_spans(rows[i].as_slice()));
        let one = Line { spans, style: l.style };
        let ghost lv = one@;
        assert(lv == all[i as int]);
        lines.push(one);
        i += 1;
        assert(line_views(lines@) =~= before.push(lv));
    }
    assert(all.take(i as int) =~= all);
    lines
}

/// The content of a line behind its gutter.
pub open spec fn behind_gutter(l: LineView) -> Seq<SpanView> {
    if has_gutter(l) {
        l.spans.skip(1)
    } else {
        l.spans
    }
}

/// The gutter of a line.
pub open spec fn gutter_of(l: LineView) -> Option<SpanView> {
    if has_gutter(l) {
        Some(l.spans[0])
    } else {
        None
    }
}

/// The cells that the gutter of a line takes.
pub open spec fn gutter_cells(l: LineView) -> nat {
    if has_gutter(l) {
        cells(l.spans[0].content)
    } else {
        0
    }
}

/// The narrowed border, where the content is one and can be narrowed.
pub open spec fn narrowed_border(l: LineView, room: nat) -> Option<LineView> {
    match border_in(behind_gutter(l)) {
        None => None,
        Some(b) => match column_widths(b.widths, room) {
            None => None,
            Some(w) => Some(border_line(gutter_of(l), w, b)),
        },
    }
}

/// The narrowed table row, where the content is one and can be narrowed.
pub open spec fn narrowed_row(l: LineView, room: nat) -> Option<Seq<LineView>> {
    match row_in(behind_gutter(l)) {
        None => None,
        Some(t) => match column_widths(t.widths, room) {
            None => None,
            Some(w) => Some(narrow_row(gutter_of(l), gutter_cells(l), t.cells, w, t.style)),
        },
    }
}

/// A line fitted to a width: the rows that stand for it.
pub open spec fn fitted(l: LineView, width: nat) -> Seq<LineView> {
    let gw = gutter_cells(l);
    if width == 0 || line_cells(l) <= width || behind_gutter(l).len() == 0 || width <= gw {
        seq![l]
    } else {
        match narrowed_border(l, (width - gw) as nat) {
            Some(b) => seq![b],
            None => match narrowed_row(l, (width - gw) as nat) {
                Some(rows) => rows,
                None => if has_gutter(l) {
                    wrapped_prose(l, width, gw)
                } else {
                    seq![l]
                },
            },
        }
    }
}

/// A list of one line.
fn alone(l: Line) -> (v: Vec<Line>)
    ensures
        line_views(v@) == seq![l@],
{
    let ghost lv = l@;
    let mut v: Vec<Line> = Vec::new();
    v.push(l);
    assert(line_views(v@) =~= seq![lv]);
    v
}

/// Fit assistant content to the width of the viewport.
pub fn responsive_content_lines(l: Line, width: u16) -> (lines: Vec<Line>)
    ensures
        line_views(lines@) == fitted(l@, width as nat),
{
    if width == 0 || line_width(&l) <= width as usize {
        return alone(l);
    }
    let ghost lv = l@;
    let gutter: bool = assistant_gutter(&l);
    let n: usize = l.spans.len();
    let from: usize = if gutter {
        1
    } else {
        0
    };
    assert(gutter ==> n > 0);
    let gutter_width: usize = if gutter {
        assert(lv.spans[0] == l.spans@[0]@);
        cell_width(l.spans[0].content.as_str())
    } else {
        0
    };
    if from >= n || width as usize <= gutter_width {
        return alone(l);
    }
    let content: &[Span] = slice_subrange(l.spans.as_slice(), from, n);
    assert(span_views(content@) =~= behind_gutter(lv));
    let room: usize = width as usize - gutter_width;
    let lead: Option<Span> = if gutter {
        Some(l.spans[0].clone())
    } else {
        None
    };
    assert(span_option(lead) == gutter_of(lv));
    match table_border(content) {
        Some(b) => {
            match constrained_table_widths(b.widths.as_slice(), room) {
                Some(w) => {
                    return alone(render_constrained_border(lead, w.as_slice(), &b));
                },
                None => {},
            }
        },
        None => {},
    }
    match table_cells(content) {
        Some(t) => {
            assert(rows_view(t.cells@).len() == nats(t.widths@).len());
            match constrained_table_widths(t.widths.as_slice(), room) {
                Some(w) => {
                    return render_constrained_row(
                        lead,
                        gutter_width,
                        &t.cells,
                        w.as_slice(),
                        t.style,
                    );
                },
                None => {},
            }
        },
        None => {},
    }
    if gutter {
        return wrap_assistant_line(&l, width as usize, gutter_width);
    }
    alone(l)
}

/// A line that fits is left alone.
pub proof fn fitting_lines_are_left_alone(l: LineView, width: nat)
    requires
        line_cells(l) <= width,
    ensures
        fitted(l, width) == seq![l],
{
}

// ---- turn dividers ----------------------------------------------------------
/// What opens a turn divider in the transcript.
pub const TURN_DIVIDER_LEFT_MARKER: &'static str = "──────── ";

/// What closes a turn divider in the transcript.
pub const TURN_DIVIDER_RIGHT_MARKER: &'static str = " ────────";

/// What the label of a turn divider opens with.
pub const TURN_LABEL: &'static str = "worked for ";

/// The label of a turn divider.
pub open spec fn divider_label(duration: Seq<char>, added: nat, removed: nat, p: Palette) -> Seq<
    SpanView,
> {
    let changed = capped(added + removed);
    if changed == 0 {
        seq![span(TURN_LABEL@ + duration + " · 0 lines changed"@, p.accent_dim())]
    } else {
        seq![
            span(
                TURN_LABEL@ + duration + " · "@ + decimal(changed) + if changed == 1 {
                    " line changed ("@
                } else {
                    " lines changed ("@
                },
                p.accent_dim(),
            ),
            span(seq!['+'] + decimal(added), p.painted(Color::Green)),
            span(seq![' '], p.accent_dim()),
            span(seq!['-'] + decimal(removed), p.painted(Color::Red)),
            span(seq![')'], p.accent_dim()),
        ]
    }
}

/// The marker of a finished turn.
pub open spec fn divider(duration: Seq<char>, added: nat, removed: nat, p: Palette) -> LineView {
    line(
        seq![span(TURN_DIVIDER_LEFT_MARKER@, p.chrome())] + divider_label(
            duration,
            added,
            removed,
            p,
        ) + seq![span(TURN_DIVIDER_RIGHT_MARKER@, p.chrome())],
    )
}

/// The marker of a finished turn, to be stretched to the width when it is drawn.
pub fn turn_divider_line(duration: &str, added: usize, removed: usize, p: Palette) -> (l: Line)
    ensures
        l@ == divider(duration@, added as nat, removed as nat, p),
{
    let changed: usize = added.saturating_add(removed);
    let mut spans: Vec<Span> = Vec::new();
    spans.push(Span::styled(TURN_DIVIDER_LEFT_MARKER, p.chrome()));
    let opening: String = TURN_LABEL.to_owned().concat(duration);
    if changed == 0 {
        let text: String = opening.concat(" · 0 lines changed");
        spans.push(Span::styled(text.as_str(), p.accent_dim()));
    } else {
        let tail: &'static str = if changed == 1 {
            " line changed ("
        } else {
            " lines changed ("
        };
        let text: String = opening.concat(" · ").concat(number(changed as u64).as_str()).concat(tail);
        spans.push(Span::styled(text.as_str(), p.accent_dim()));
        let plus: String = char_text('+').concat(number(added as u64).as_str());
        spans.push(Span::styled(plus.as_str(), p.semantic(Color::Green)));
        spans.push(Span::styled(char_text(' ').as_str(), p.accent_dim()));
        let minus: String = char_text('-').concat(number(removed as u64).as_str());
        spans.push(Span::styled(minus.as_str(), p.semantic(Color::Red)));
        spans.push(Span::styled(char_text(')').as_str(), p.accent_dim()));
    }
    spans.push(Span::styled(TURN_DIVIDER_RIGHT_MARKER, p.chrome()));
    assert(span_views(spans@) =~= divider(duration@, added as nat, removed as nat, p).spans);
    Line::new(spans)
}

/// The line is the marker of a finished turn.
pub open spec fn is_divider(l: LineView) -> bool {
    l.spans.len() >= 3 && l.spans[0].content == TURN_DIVIDER_LEFT_MARKER@ && l.spans.last().content
        == TURN_DIVIDER_RIGHT_MARKER@ && stands_at(l.spans[1].content, TURN_LABEL@, 0)
}

/// The first `n` characters of some spans, span by span.
pub open spec fn clipped(spans: Seq<SpanView>, n: nat) -> Seq<SpanView>
    decreases spans.len(),
{
    if spans.len() == 0 || n == 0 {
        Seq::empty()
    } else {
        let c = spans[0].content;
        let take = if c.len() < n {
            c.len()
        } else {
            n
        };
        seq![span(c.take(take as int), spans[0].style)] + clipped(
            spans.skip(1),
            (n - take) as nat,
        )
    }
}

/// The marker stretched to a width: its label behind one cell of rule, the rest
/// of the rule behind the label. Without room for both the rule gives way, and
/// without room for the label it is clipped.
pub open spec fn stretched(l: LineView, width: nat) -> LineView {
    let label = l.spans.subrange(1, l.spans.len() - 1);
    let lw = capped(spans_cells(label));
    let head = span(seq!['─', ' '], l.spans[0].style);
    if width <= lw {
        line(clipped(label, width))
    } else if width - lw == 1 {
        line(label.push(span(seq!['─'], l.spans.last().style)))
    } else if width - lw == 2 {
        line(seq![head] + label)
    } else {
        line(
            (seq![head] + label).push(
                span(
                    seq![' '] + repeat('─', (width - lw - 3) as nat),
                    l.spans.last().style,
                ),
            ),
        )
    }
}

/// The first `n` characters of some spans, span by span.
fn clip_spans(spans: &[Span], n: usize) -> (out: Vec<Span>)
    ensures
        span_views(out@) == clipped(span_views(spans@), n as nat),
{
    let ghost all = span_views(spans@);
    let mut out: Vec<Span> = Vec::new();
    let mut left: usize = n;
    let mut i: usize = 0;
    assert(all.skip(0) =~= all);
    while i < spans.len() && left > 0
        invariant
            i <= spans@.len(),
            all == span_views(spans@),
            span_views(out@) + clipped(all.skip(i as int), left as nat) == clipped(all, n as nat),
        decreases spans@.len() - i,
    {
        let ghost here = all.skip(i as int);
        assert(here[0] == spans@[i as int]@);
        assert(here.skip(1) =~= all.skip(i + 1));
        let ghost before = span_views(out@);
        let c: Vec<char> = chars_of(spans[i].content.as_str());
        let take: usize = if c.len() < left {
            c.len()
        } else {
            left
        };
        let piece: Vec<char> = slice_of(c.as_slice(), 0, take);
        assert(piece@ =~= c@.take(take as int));
        let s: Span = Span::of(piece.as_slice(), spans[i].style);
        let ghost sv = s@;
        out.push(s);
        left -= take;
        i += 1;
        assert(span_views(out@) =~= before.push(sv));
        let ghost rest = clipped(all.skip(i as int), left as nat);
        assert(before + (seq![sv] + rest) =~= span_views(out@) + rest);
    }
    assert(clipped(all.skip(i as int), left as nat) =~= Seq::<SpanView>::empty());
    assert(span_views(out@) =~= clipped(all, n as nat));
    out
}

/// Stretch the marker of a finished turn to exactly the width; nothing for any
/// other line.
pub fn full_width_turn_divider(l: &Line, width: u16) -> (r: Option<Line>)
    ensures
        match r {
            Some(d) => is_divider(l@) && d@ == stretched(l@, width as nat),
            None => !is_divider(l@),
        },
{
    let n: usize = l.spans.len();
    if n < 3 {
        return None;
    }
    let ghost lv = l@;
    assert(lv.spans[0] == l.spans@[0]@);
    assert(lv.spans[1] == l.spans@[1]@);
    assert(lv.spans.last() == l.spans@[n - 1]@);
    let second: Vec<char> = chars_of(l.spans[1].content.as_str());
    let opening: Vec<char> = chars_of(TURN_LABEL);
    if !same(l.spans[0].content.as_str(), TURN_DIVIDER_LEFT_MARKER) || !same(
        l.spans[n - 1].content.as_str(),
        TURN_DIVIDER_RIGHT_MARKER,
    ) || !matches_at(second.as_slice(), opening.as_slice(), 0) {
        return None;
    }
    let w: usize = width as usize;
    let label: &[Span] = slice_subrange(l.spans.as_slice(), 1, n - 1);
    let ghost lb = lv.spans.subrange(1, n - 1);
    assert(span_views(label@) =~= lb);
    let lw: usize = spans_width(label);
    if w <= lw {
        return Some(Line::new(clip_spans(label, w)));
    }
    let last_style: Style = l.spans[n - 1].style;
    if w - lw == 1 {
        let mut spans: Vec<Span> = copy_spans(label);
        let ghost before = span_views(spans@);
        let s = Span::styled(char_text('─').as_str(), last_style);
        let ghost sv = s@;
        spans.push(s);
        assert(span_views(spans@) =~= before.push(sv));
        return Some(Line::new(spans));
    }
    let mut spans: Vec<Span> = Vec::new();
    let head: Vec<char> = vec!['─', ' '];
    assert(head@ =~= seq!['─', ' ']);
    let s = Span::of(head.as_slice(), l.spans[0].style);
    let ghost sv = s@;
    spans.push(s);
    assert(span_views(spans@) =~= seq![sv]);
    append_spans(&mut spans, copy_spans(label));
    if w - lw > 2 {
        let mut rule: Vec<char> = Vec::new();
        rule.push(' ');
        push_repeat(&mut rule, '─', w - lw - 3);
        assert(rule@ =~= seq![' '] + repeat('─', (w - lw - 3) as nat));
        let ghost before = span_views(spans@);
        let e = Span::of(rule.as_slice(), last_style);
        let ghost ev = e@;
        spans.push(e);
        assert(span_views(spans@) =~= before.push(ev));
    }
    Some(Line::new(spans))
}

/// The marker that a finished turn leaves is recognised when it is drawn.
pub proof fn dividers_are_recognised(duration: Seq<char>, added: nat, removed: nat, p: Palette)
    ensures
        is_divider(divider(duration, added, removed, p)),
{
    let l = divider(duration, added, removed, p);
    let label = divider_label(duration, added, removed, p);
    assert(l.spans[1] == label[0]);
    assert(l.spans.last() == span(TURN_DIVIDER_RIGHT_MARKER@, p.chrome()));
    let c = label[0].content;
    assert(c.subrange(0, TURN_LABEL@.len() as int) =~= TURN_LABEL@);
}

} // verus!
