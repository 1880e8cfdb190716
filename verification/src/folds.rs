//! How lines are fitted to a width: where rows break, what a table gives up, and
//! how far a divider reaches.
use crate::fit::{
    at_least_one,
    border_in,
    border_left,
    border_line,
    border_widths,
    cells_from,
    clipped,
    column_budget,
    column_widths,
    columns_at,
    cut,
    divider,
    fit_end,
    first_share,
    fitted,
    glyph,
    glyph_cells,
    glyph_rows,
    glyph_spans,
    glyphs,
    gutter_cells,
    has_gutter,
    is_bar,
    lead,
    lemma_cut,
    lemma_last_white,
    narrow_row,
    physical_row,
    rounds,
    row_in,
    shared,
    skip_white,
    spans_cells,
    stretched,
    tallest,
    text_glyphs,
    total,
    trim_back,
    trim_front,
    wrap,
    wrapped_cells,
    wrapped_prose,
    BorderView,
    Glyph,
};
use crate::markup::{times, told};
use crate::styled::{raw, Color, LineView, Paint, SpanView, Style};
use crate::text::{decimal, trim, trim_end, trim_start, white};
use crate::theme::Palette;
use crate::words::blank;
use vstd::prelude::*;
use vstd::string::*;

verus! {

// ---- rows -------------------------------------------------------------------
proof fn lemma_cells_of(g: Seq<Glyph>, s: int, e: int)
    requires
        0 <= s <= e < g.len(),
    ensures
        glyph_cells(g.subrange(s, e + 1)) == glyph_cells(g.subrange(s, e)) + g[e].width,
{
    assert(g.subrange(s, e + 1).drop_last() =~= g.subrange(s, e));
    assert(g.subrange(s, e + 1).last() == g[e]);
}

proof fn lemma_cells_grow(g: Seq<Glyph>, s: int, e: int, k: int)
    requires
        0 <= s <= e <= k <= g.len(),
    ensures
        glyph_cells(g.subrange(s, e)) <= glyph_cells(g.subrange(s, k)),
    decreases k - e,
{
    if e < k {
        lemma_cells_of(g, s, k - 1);
        lemma_cells_grow(g, s, e, k - 1);
    }
}

proof fn lemma_fit_end_is_last(g: Seq<Glyph>, s: int, i: int, width: int)
    requires
        0 <= s <= i <= g.len(),
        glyph_cells(g.subrange(s, i)) <= width,
    ensures
        ({
            let e = fit_end(g, i, glyph_cells(g.subrange(s, i)) as int, width);
            &&& i <= e <= g.len()
            &&& glyph_cells(g.subrange(s, e)) <= width
            &&& e < g.len() ==> glyph_cells(g.subrange(s, e + 1)) > width
        }),
    decreases g.len() - i,
{
    if i < g.len() {
        lemma_cells_of(g, s, i);
        if glyph_cells(g.subrange(s, i)) + g[i].width <= width {
            lemma_fit_end_is_last(g, s, i + 1, width);
        }
    }
}

/// A row ends where nothing is left, or at white space: no later white space would
/// have left it within the width. Where there is none to break at, it takes all
/// that fits.
pub proof fn a_row_breaks_as_late_as_it_can(g: Seq<Glyph>, s: int, width: nat)
    requires
        0 <= s < g.len(),
        g[s].width <= width,
    ensures
        ({
            let (e, next) = cut(g, s, width as int);
            &&& s < e <= next <= g.len()
            &&& glyph_cells(g.subrange(s, e)) <= width
            &&& glyph_cells(g.subrange(s, g.len() as int)) <= width ==> e == g.len()
            &&& e < g.len() ==> {
                &&& glyph_cells(g.subrange(s, g.len() as int)) > width
                &&& white(g[e].ch) || glyph_cells(g.subrange(s, e + 1)) > width
                &&& forall|k: int|
                    e < k < g.len() && white((#[trigger] g[k]).ch) ==> glyph_cells(
                        g.subrange(s, k + 1),
                    ) > width
            }
        }),
{
    let w = width as int;
    let end = fit_end(g, s, 0, w);
    assert(glyph_cells(g.subrange(s, s)) == 0) by {
        assert(g.subrange(s, s) =~= Seq::<Glyph>::empty());
    }
    lemma_fit_end_is_last(g, s, s, w);
    lemma_cut(g, s, w);
    lemma_last_white(g, s, end);
    let (e, next) = cut(g, s, w);
    assert(end > s) by {
        lemma_cells_of(g, s, s);
    }
    if end == g.len() {
    } else {
        lemma_cells_grow(g, s, end + 1, g.len() as int);
        lemma_cells_grow(g, s, e, end);
        assert forall|k: int| e < k < g.len() && white((#[trigger] g[k]).ch) implies glyph_cells(
            g.subrange(s, k + 1),
        ) > width by {
            assert(k >= end);
            lemma_cells_grow(g, s, end + 1, k + 1);
        }
    }
}

/// What fits is one row.
pub proof fn what_fits_is_one_row(g: Seq<Glyph>, width: nat)
    requires
        g.len() > 0,
        !white(g[0].ch),
        glyph_cells(g) <= width,
    ensures
        glyph_rows(g, 0, width as int) == seq![g],
{
    assert(skip_white(g, 0) == 0);
    assert(g.subrange(0, g.len() as int) =~= g);
    lemma_cells_grow(g, 0, 1, g.len() as int);
    lemma_cells_of(g, 0, 0);
    assert(g.subrange(0, 0) =~= Seq::<Glyph>::empty());
    a_row_breaks_as_late_as_it_can(g, 0, width);
    let n = g.len() as int;
    let (e, next) = cut(g, 0, width as int);
    assert(e == n && next == n);
    assert(glyph_rows(g, n, width as int) =~= Seq::<Seq<Glyph>>::empty());
    assert(seq![g] + Seq::<Seq<Glyph>>::empty() =~= seq![g]);
}

proof fn lemma_glyphs_add(a: Seq<SpanView>, b: SpanView)
    ensures
        glyphs(a.push(b)) == glyphs(a) + text_glyphs(b.content, b.style),
{
    assert(a.push(b).drop_last() =~= a);
}

/// Characters with their styles make spans that hold just these characters in
/// these styles.
pub proof fn spans_keep_their_glyphs(g: Seq<Glyph>)
    requires
        forall|i: int| 0 <= i < g.len() ==> #[trigger] g[i] == glyph(g[i].ch, g[i].style),
    ensures
        glyphs(glyph_spans(g)) == g,
    decreases g.len(),
{
    if g.len() == 0 {
        assert(glyphs(glyph_spans(g)) =~= g);
    } else {
        let t = g.drop_last();
        let x = g.last();
        assert(g[g.len() - 1] == glyph(x.ch, x.style));
        assert forall|i: int| 0 <= i < t.len() implies #[trigger] t[i] == glyph(t[i].ch, t[i].style) by {
            assert(t[i] == g[i]);
        }
        spans_keep_their_glyphs(t);
        let before = glyph_spans(t);
        if before.len() > 0 && before.last().style == x.style {
            let front = before.drop_last();
            let last = before.last();
            let more = SpanView { content: last.content.push(x.ch), style: x.style };
            assert(front.push(last) =~= before);
            lemma_glyphs_add(front, last);
            lemma_glyphs_add(front, more);
            assert(text_glyphs(last.content.push(x.ch), x.style) =~= text_glyphs(
                last.content,
                x.style,
            ).push(glyph(x.ch, x.style)));
            assert(glyph_spans(g) =~= front.push(more));
            assert(glyphs(front) + text_glyphs(last.content, last.style) == t);
            assert(glyphs(front) + text_glyphs(last.content, x.style).push(x) =~= t.push(x));
            assert(t.push(x) =~= g);
        } else {
            let one = SpanView { content: seq![x.ch], style: x.style };
            lemma_glyphs_add(before, one);
            assert(text_glyphs(seq![x.ch], x.style) =~= seq![glyph(x.ch, x.style)]);
            assert(glyph_spans(g) =~= before.push(one));
            assert(t + seq![x] =~= g);
        }
    }
}

/// Prose that is too wide is wrapped behind its mark: the first row keeps it, the
/// others have as many spaces.
pub proof fn prose_is_wrapped_behind_its_mark(l: LineView, width: nat, mark: nat, i: int)
    requires
        l.spans.len() > 0,
        mark < width,
        0 <= i < wrapped_prose(l, width, mark).len(),
    ensures
        ({
            let rows = wrapped_prose(l, width, mark);
            let body = wrap(l.spans.skip(1), (width - mark) as nat);
            &&& rows.len() == body.len()
            &&& rows[i].style == l.style
            &&& i == 0 ==> rows[i].spans == seq![l.spans[0]] + body[i]
            &&& i > 0 ==> rows[i].spans == seq![raw(times(mark, ' '))] + body[i]
        }),
{
    assert(crate::text::repeat(' ', mark) =~= times(mark, ' '));
}

/// A line has a mark where it starts with two spaces or the sign of an answer.
pub proof fn what_a_mark_is(l: LineView)
    requires
        l.spans.len() > 0,
    ensures
        l.spans[0].content == seq![' ', ' '] ==> has_gutter(l),
        l.spans[0].content == "✻"@ + seq![' '] ==> has_gutter(l),
        l.spans[0].content.len() > 0 && l.spans[0].content.last() != ' ' ==> !has_gutter(l),
        l.spans[0].content.len() == 0 ==> !has_gutter(l),
{
    reveal_strlit("✻");
    reveal_with_fuel(trim_end, 3);
    let m = "✻"@;
    let c = m + seq![' '];
    assert(c.drop_last() =~= m);
    assert(c.last() == ' ');
    assert(m.last() == '✻');
    if l.spans[0].content == seq![' ', ' '] {
        assert(l.spans[0].content.last() == ' ');
    }
}

/// A line within the width, or where there is no width, is left alone; prose that
/// is wider is wrapped behind its mark where it has one.
pub proof fn what_is_done_to_a_wide_line(l: LineView, width: nat)
    requires
        border_in(l.spans.skip(1)) is None,
        row_in(l.spans.skip(1)) is None,
        border_in(l.spans) is None,
        row_in(l.spans) is None,
    ensures
        crate::fit::line_cells(l) <= width ==> fitted(l, width) == seq![l],
        width == 0 ==> fitted(l, width) == seq![l],
        has_gutter(l) && l.spans.len() > 1 && crate::fit::line_cells(l) > width && width
            > gutter_cells(l) ==> fitted(l, width) == wrapped_prose(l, width, gutter_cells(l)),
        !has_gutter(l) ==> fitted(l, width) == seq![l],
{
}

/// A border and a row of a table that are too wide are narrowed, behind the mark of
/// their line.
pub proof fn what_is_done_to_a_wide_table(l: LineView, width: nat, w: Seq<nat>)
    requires
        has_gutter(l),
        l.spans.len() > 1,
        crate::fit::line_cells(l) > width,
        width > gutter_cells(l),
    ensures
        ({
            let behind = l.spans.skip(1);
            let room = (width - gutter_cells(l)) as nat;
            let b = border_in(behind);
            let t = row_in(behind);
            &&& b is Some && column_widths(b->0.widths, room) == Some(w) ==> fitted(l, width) == seq![
                border_line(Some(l.spans[0]), w, b->0),
            ]
            &&& b is None && t is Some && column_widths(t->0.widths, room) == Some(w) ==> fitted(
                l,
                width,
            ) == narrow_row(Some(l.spans[0]), gutter_cells(l), t->0.cells, w, t->0.style)
        }),
{
}

// ---- borders ----------------------------------------------------------------
proof fn lemma_dashes(n: nat, rest: Seq<char>, m: char, segment: nat)
    requires
        m != '─',
    ensures
        border_widths(times(n, '─') + rest, m, segment) == border_widths(rest, m, segment + n),
    decreases n,
{
    let s = times(n, '─') + rest;
    if n == 0 {
        assert(s =~= rest);
    } else {
        assert(s[0] == '─');
        assert(s.skip(1) =~= times((n - 1) as nat, '─') + rest);
        lemma_dashes((n - 1) as nat, rest, m, segment + 1);
    }
}

/// A border behind its first `k` columns.
spec fn border_rest(widths: Seq<nat>, m: char, k: int) -> Seq<char>
    decreases widths.len() - k,
{
    if k < 0 || k >= widths.len() {
        Seq::empty()
    } else {
        times(widths[k] + 2, '─') + (if k + 1 < widths.len() {
            seq![m]
        } else {
            Seq::empty()
        }) + border_rest(widths, m, k + 1)
    }
}

proof fn lemma_border_rest(widths: Seq<nat>, m: char, k: int)
    requires
        0 <= k < widths.len(),
        m != '─',
    ensures
        border_widths(border_rest(widths, m, k), m, 0) == Some(widths.skip(k)),
    decreases widths.len() - k,
{
    reveal_with_fuel(border_widths, 2);
    reveal_with_fuel(border_rest, 2);
    let w = widths[k];
    let d = times(w + 2, '─');
    if k + 1 == widths.len() {
        let e = Seq::<char>::empty();
        assert(border_rest(widths, m, k) =~= d + e);
        lemma_dashes(w + 2, e, m, 0);
        assert(widths.skip(k) =~= seq![w]);
    } else {
        let more = border_rest(widths, m, k + 1);
        let rest = seq![m] + more;
        assert(border_rest(widths, m, k) =~= d + rest);
        lemma_dashes(w + 2, rest, m, 0);
        assert(rest.skip(1) =~= more);
        lemma_border_rest(widths, m, k + 1);
        assert(widths.skip(k) =~= seq![w] + widths.skip(k + 1));
    }
}

proof fn lemma_border_parts(widths: Seq<nat>, m: char, n: nat)
    requires
        n <= widths.len(),
    ensures
        crate::markdown::border_part(widths, m, n) + (if 0 < n < widths.len() {
            seq![m]
        } else {
            Seq::empty()
        }) + border_rest(widths, m, n as int) == border_rest(widths, m, 0),
    decreases n,
{
    let e = Seq::<char>::empty();
    if n == 0 {
        assert(crate::markdown::border_part(widths, m, 0) =~= e);
        assert(e + e + border_rest(widths, m, 0) =~= border_rest(widths, m, 0));
    } else {
        lemma_border_parts(widths, m, (n - 1) as nat);
        let w = widths[n - 1];
        let bar = crate::text::repeat('\u{2500}', w);
        assert(times(w + 2, '─') =~= bar + seq!['\u{2500}', '\u{2500}']);
        let front = crate::markdown::border_part(widths, m, (n - 1) as nat);
        let joint = if n > 1 {
            seq![m]
        } else {
            e
        };
        let end = if n < widths.len() {
            seq![m]
        } else {
            e
        };
        let rest = border_rest(widths, m, n as int);
        assert(border_rest(widths, m, n - 1) =~= bar + seq!['\u{2500}', '\u{2500}'] + end + rest);
        assert(front + joint + bar + seq!['\u{2500}', '\u{2500}'] + end + rest =~= front + joint + (
        bar + seq!['\u{2500}', '\u{2500}'] + end + rest));
    }
}

/// The border of a table is read back: its corners and the widths of its columns.
pub proof fn a_border_reads_back(widths: Seq<nat>, style: Style)
    requires
        widths.len() > 0,
    ensures
        border_in(
            seq![
                (SpanView {
                    content: crate::markdown::border(widths, '┌', '┬', '┐'),
                    style,
                }),
            ],
        ) == Some(BorderView { left: '┌', middle: '┬', right: '┐', widths, style }),
        border_in(
            seq![
                (SpanView {
                    content: crate::markdown::border(widths, '├', '┼', '┤'),
                    style,
                }),
            ],
        ) == Some(BorderView { left: '├', middle: '┼', right: '┤', widths, style }),
        border_in(
            seq![
                (SpanView {
                    content: crate::markdown::border(widths, '└', '┴', '┘'),
                    style,
                }),
            ],
        ) == Some(BorderView { left: '└', middle: '┴', right: '┘', widths, style }),
{
    lemma_one_border(widths, style, '┌', '┬', '┐');
    lemma_one_border(widths, style, '├', '┼', '┤');
    lemma_one_border(widths, style, '└', '┴', '┘');
}

proof fn lemma_one_border(widths: Seq<nat>, style: Style, l: char, m: char, r: char)
    requires
        widths.len() > 0,
        m != '─',
        crate::fit::middle_of(l, r) == Some(m),
    ensures
        border_in(
            seq![(SpanView { content: crate::markdown::border(widths, l, m, r), style })],
        ) == Some(BorderView { left: l, middle: m, right: r, widths, style }),
{
    let t = crate::markdown::border(widths, l, m, r);
    let spans = seq![(SpanView { content: t, style })];
    assert(crate::fit::spans_text(spans) =~= t) by {
        reveal_with_fuel(crate::fit::spans_text, 2);
        assert(spans.drop_last() =~= Seq::<SpanView>::empty());
    }
    lemma_border_parts(widths, m, widths.len());
    let inner = t.subrange(1, t.len() - 1);
    assert(border_rest(widths, m, widths.len() as int) =~= Seq::<char>::empty());
    assert(inner =~= border_rest(widths, m, 0));
    assert(t[0] == l);
    assert(t.last() == r);
    lemma_border_rest(widths, m, 0);
    assert(widths.skip(0) =~= widths);
}

proof fn lemma_border_left(widths: Seq<nat>, l: char, m: char, n: nat)
    requires
        n <= widths.len(),
    ensures
        border_left(widths, l, m, n) == seq![l] + crate::markdown::border_part(widths, m, n),
    decreases n,
{
    if n == 0 {
        assert(seq![l] + crate::markdown::border_part(widths, m, 0) =~= seq![l]);
    } else {
        lemma_border_left(widths, l, m, (n - 1) as nat);
        let w = widths[n - 1];
        assert(crate::text::repeat('─', w + 2) =~= crate::text::repeat('\u{2500}', w) + seq![
            '\u{2500}',
            '\u{2500}',
        ]);
        assert(border_left(widths, l, m, n) =~= seq![l] + crate::markdown::border_part(
            widths,
            m,
            n,
        ));
    }
}

/// A narrowed border is drawn as any border, in its new widths, behind the mark of
/// its line.
pub proof fn a_narrowed_border_is_a_border(widths: Seq<nat>, b: BorderView, mark: SpanView)
    ensures
        border_line(None, widths, b).spans == seq![
            (SpanView {
                content: crate::markdown::border(widths, b.left, b.middle, b.right),
                style: b.style,
            }),
        ],
        border_line(Some(mark), widths, b).spans == seq![mark] + border_line(
            None,
            widths,
            b,
        ).spans,
{
    lemma_border_left(widths, b.left, b.middle, widths.len());
    let t = border_left(widths, b.left, b.middle, widths.len()).push(b.right);
    assert(t =~= crate::markdown::border(widths, b.left, b.middle, b.right));
    assert(border_line(Some(mark), widths, b).spans =~= seq![mark] + border_line(
        None,
        widths,
        b,
    ).spans);
}

// ---- rows of a table --------------------------------------------------------
/// Cells with a bar behind every one.
pub open spec fn barred(cells: Seq<Seq<SpanView>>, bar: SpanView) -> Seq<SpanView>
    decreases cells.len(),
{
    if cells.len() == 0 {
        Seq::empty()
    } else {
        cells[0] + seq![bar] + barred(cells.skip(1), bar)
    }
}

proof fn lemma_cell_spans(c: Seq<SpanView>, rest: Seq<SpanView>, cur: Seq<SpanView>)
    requires
        forall|i: int| 0 <= i < c.len() ==> !is_bar(#[trigger] c[i]),
    ensures
        cells_from(c + rest, cur) == cells_from(rest, cur + c),
    decreases c.len(),
{
    if c.len() == 0 {
        assert(c + rest =~= rest);
        assert(cur + c =~= cur);
    } else {
        assert(!is_bar(c[0]));
        assert((c + rest)[0] == c[0]);
        assert((c + rest).skip(1) =~= c.skip(1) + rest);
        assert forall|i: int| 0 <= i < c.skip(1).len() implies !is_bar(#[trigger] c.skip(1)[i]) by {
            assert(c.skip(1)[i] == c[i + 1]);
        }
        lemma_cell_spans(c.skip(1), rest, cur.push(c[0]));
        assert(cur.push(c[0]) + c.skip(1) =~= cur + c);
    }
}

proof fn lemma_barred(cells: Seq<Seq<SpanView>>, bar: SpanView)
    requires
        is_bar(bar),
        forall|k: int, i: int|
            0 <= k < cells.len() && 0 <= i < cells[k].len() ==> !is_bar(#[trigger] cells[k][i]),
    ensures
        cells_from(barred(cells, bar), Seq::empty()) == cells,
    decreases cells.len(),
{
    let e = Seq::<SpanView>::empty();
    if cells.len() == 0 {
        assert(cells_from(barred(cells, bar), e) =~= cells);
    } else {
        let tail = barred(cells.skip(1), bar);
        let rest = seq![bar] + tail;
        assert(barred(cells, bar) =~= cells[0] + rest);
        assert forall|i: int| 0 <= i < cells[0].len() implies !is_bar(#[trigger] cells[0][i]) by {}
        lemma_cell_spans(cells[0], rest, e);
        assert(e + cells[0] =~= cells[0]);
        assert(rest.skip(1) =~= tail);
        let more = cells.skip(1);
        assert forall|k: int, i: int| 0 <= k < more.len() && 0 <= i < more[k].len() implies !is_bar(
            #[trigger] more[k][i],
        ) by {
            assert(more[k][i] == cells[k + 1][i]);
        }
        lemma_barred(more, bar);
        assert(seq![cells[0]] + more =~= cells);
    }
}

/// A row of a table is read by its bars: every cell without the spaces around it,
/// and with the room it had between them.
pub proof fn a_row_is_read_by_its_bars(cells: Seq<Seq<SpanView>>, bar: SpanView, k: int)
    requires
        is_bar(bar),
        cells.len() > 0,
        cells[0].len() > 0,
        0 <= k < cells.len(),
        forall|k: int, i: int|
            0 <= k < cells.len() && 0 <= i < cells[k].len() ==> !is_bar(#[trigger] cells[k][i]),
    ensures
        ({
            let r = row_in(seq![bar] + barred(cells, bar));
            &&& r is Some
            &&& r->0.cells.len() == cells.len()
            &&& r->0.widths.len() == cells.len()
            &&& r->0.cells[k] == trim_back(trim_front(cells[k]))
            &&& spans_cells(cells[k]) >= 2 && spans_cells(cells[k]) <= usize::MAX
                ==> r->0.widths[k] + 2 == spans_cells(cells[k])
            &&& r->0.style == bar.style
        }),
{
    let body = barred(cells, bar);
    let spans = seq![bar] + body;
    lemma_barred(cells, bar);
    lemma_ends_in_a_bar(cells, bar);
    assert(spans.skip(1) =~= body);
    assert(spans.last() == body.last());
}

proof fn lemma_ends_in_a_bar(cells: Seq<Seq<SpanView>>, bar: SpanView)
    requires
        cells.len() > 0,
    ensures
        barred(cells, bar).len() > cells[0].len(),
        barred(cells, bar).last() == bar,
    decreases cells.len(),
{
    if cells.len() > 1 {
        lemma_ends_in_a_bar(cells.skip(1), bar);
    } else {
        assert(barred(cells.skip(1), bar) =~= Seq::<SpanView>::empty());
    }
}

proof fn lemma_trim_start_blank(a: Seq<char>, b: Seq<char>)
    requires
        blank(a),
    ensures
        trim_start(a + b) == trim_start(b),
    decreases a.len(),
{
    if a.len() == 0 {
        assert(a + b =~= b);
    } else {
        assert(white(a[0]));
        assert((a + b).skip(1) =~= a.skip(1) + b);
        assert forall|i: int| 0 <= i < a.skip(1).len() implies white(#[trigger] a.skip(1)[i]) by {
            assert(a.skip(1)[i] == a[i + 1]);
        }
        lemma_trim_start_blank(a.skip(1), b);
    }
}

proof fn lemma_trim_start_some(a: Seq<char>, b: Seq<char>)
    requires
        !blank(a),
    ensures
        trim_start(a + b) == trim_start(a) + b,
    decreases a.len(),
{
    let k = choose|k: int| 0 <= k < a.len() && !white(#[trigger] a[k]);
    assert((a + b)[0] == a[0]);
    if white(a[0]) {
        assert((a + b).skip(1) =~= a.skip(1) + b);
        assert(a.skip(1)[k - 1] == a[k]);
        lemma_trim_start_some(a.skip(1), b);
    }
}

proof fn lemma_trimmed_is_blank(s: Seq<char>)
    ensures
        trim(s).len() == 0 <==> blank(s),
    decreases s.len(),
{
    if blank(s) {
        crate::words::nothing_is_left_of_white_space(s);
    } else {
        let k = choose|k: int| 0 <= k < s.len() && !white(#[trigger] s[k]);
        if white(s[0]) {
            assert(s.skip(1)[k - 1] == s[k]);
            lemma_trimmed_is_blank(s.skip(1));
        } else {
            lemma_trim_end_some(s);
        }
    }
}

proof fn lemma_trim_end_some(s: Seq<char>)
    requires
        s.len() > 0,
        !white(s[0]),
    ensures
        trim_end(s).len() > 0,
    decreases s.len(),
{
    if white(s.last()) {
        lemma_trim_end_some(s.drop_last());
    }
}

proof fn lemma_told_first(s: Seq<SpanView>)
    requires
        s.len() > 0,
    ensures
        told(s) == s[0].content + told(s.skip(1)),
    decreases s.len(),
{
    reveal_with_fuel(told, 2);
    if s.len() == 1 {
        assert(s.drop_last() =~= Seq::<SpanView>::empty());
        assert(s.skip(1) =~= Seq::<SpanView>::empty());
        assert(told(s) =~= s[0].content + told(s.skip(1)));
    } else {
        lemma_told_first(s.drop_last());
        assert(s.drop_last().skip(1) =~= s.skip(1).drop_last());
        assert(told(s) =~= s[0].content + told(s.skip(1)));
    }
}

/// What is left of a cell in front says what its text says without the white space
/// at its start.
pub proof fn cells_are_trimmed_in_front(s: Seq<SpanView>)
    ensures
        told(trim_front(s)) == trim_start(told(s)),
    decreases s.len(),
{
    if s.len() > 0 {
        lemma_told_first(s);
        lemma_trimmed_is_blank(s[0].content);
        if trim(s[0].content).len() == 0 {
            cells_are_trimmed_in_front(s.skip(1));
            lemma_trim_start_blank(s[0].content, told(s.skip(1)));
        } else {
            let t = trim_front(s);
            lemma_told_first(t);
            assert(t.skip(1) =~= s.skip(1));
            lemma_trim_start_some(s[0].content, told(s.skip(1)));
        }
    } else {
        assert(told(s) =~= Seq::<char>::empty());
    }
}

proof fn lemma_trim_end_blank(a: Seq<char>, b: Seq<char>)
    requires
        blank(b),
    ensures
        trim_end(a + b) == trim_end(a),
    decreases b.len(),
{
    if b.len() == 0 {
        assert(a + b =~= a);
    } else {
        assert(white(b[b.len() - 1]));
        assert((a + b).drop_last() =~= a + b.drop_last());
        assert forall|i: int| 0 <= i < b.drop_last().len() implies white(
            #[trigger] b.drop_last()[i],
        ) by {
            assert(b.drop_last()[i] == b[i]);
        }
        lemma_trim_end_blank(a, b.drop_last());
    }
}

proof fn lemma_trim_end_kept(a: Seq<char>, b: Seq<char>)
    requires
        !blank(b),
    ensures
        trim_end(a + b) == a + trim_end(b),
    decreases b.len(),
{
    let k = choose|k: int| 0 <= k < b.len() && !white(#[trigger] b[k]);
    assert((a + b).last() == b.last());
    if white(b.last()) {
        assert((a + b).drop_last() =~= a + b.drop_last());
        assert(b.drop_last()[k] == b[k]);
        lemma_trim_end_kept(a, b.drop_last());
    }
}

/// The same behind: white space at the end goes, and nothing else.
pub proof fn cells_are_trimmed_behind(s: Seq<SpanView>)
    ensures
        told(trim_back(s)) == trim_end(told(s)),
    decreases s.len(),
{
    if s.len() > 0 {
        let front = s.drop_last();
        let last = s.last();
        lemma_trimmed_is_blank(last.content);
        if trim(last.content).len() == 0 {
            cells_are_trimmed_behind(front);
            lemma_trim_end_blank(told(front), last.content);
        } else {
            let t = trim_back(s);
            assert(t.drop_last() =~= front);
            lemma_trim_end_kept(told(front), last.content);
        }
    } else {
        assert(told(s) =~= Seq::<char>::empty());
    }
}

/// A table that fits keeps its widths; one that does not gives every column a cell
/// at least and no more than its longest, and fills the width. One too narrow for
/// a cell in each column is left as it is.
pub proof fn how_columns_are_narrowed(natural: Seq<nat>, width: nat, i: int)
    requires
        0 <= i < natural.len(),
    ensures
        width < 4 * natural.len() + 1 ==> column_widths(natural, width) is None,
        width >= 4 * natural.len() + 1 ==> {
            let w = column_widths(natural, width);
            let room = (width - 3 * natural.len() - 1) as nat;
            &&& w is Some
            &&& total(natural) <= room ==> w->0 == natural
            &&& total(natural) > room ==> w->0.len() == natural.len() && total(w->0) == room && 1
                <= w->0[i] <= at_least_one(natural[i])
        },
{
    if width >= 4 * natural.len() + 1 {
        let budget = (width - (3 * natural.len() + 1)) as nat;
        assert(column_budget(natural.len(), width) == Some(budget));
        if total(natural) > budget {
            crate::fit::narrowed_columns_fill_the_width(natural, width);
            let w = column_widths(natural, width)->0;
            assert(shared(natural, budget, w));
            let (r, k) = choose|r: nat, k: int| #[trigger] rounds(natural, budget, w, r, k);
            let start = first_share(natural, budget);
            assert(w[i] == crate::fit::after_rounds(start[i], natural[i], i, r, k));
        }
    }
}

/// Where eight cells for every column can be had, every column that wants them has
/// eight, and what is left is shared evenly, the first columns before the others.
pub proof fn room_is_shared_evenly(natural: Seq<nat>, width: nat, i: int, j: int)
    requires
        0 <= i < natural.len(),
        0 <= j < natural.len(),
        forall|k: int| 0 <= k < natural.len() ==> #[trigger] natural[k] >= 8,
        total(natural) > width - 3 * natural.len() - 1,
        width >= 11 * natural.len() + 1,
    ensures
        ({
            let w = column_widths(natural, width)->0;
            &&& w[i] >= 8
            &&& w[i] < natural[i] ==> w[j] <= w[i] + 1
            &&& j < i && w[j] < natural[j] ==> w[i] <= w[j]
        }),
{
    let budget = (width - (3 * natural.len() + 1)) as nat;
    assert(column_budget(natural.len(), width) == Some(budget));
    crate::fit::narrowed_columns_fill_the_width(natural, width);
    let w = column_widths(natural, width)->0;
    assert(shared(natural, budget, w));
    let (r, k) = choose|r: nat, k: int| #[trigger] rounds(natural, budget, w, r, k);
    let p = natural.map_values(|n: nat| crate::fit::preferred(n));
    assert forall|q: int| 0 <= q < p.len() implies #[trigger] p[q] == 8 by {
        assert(natural[q] >= 8);
    }
    lemma_eights(p);
    let start = first_share(natural, budget);
    assert(start == p);
    assert(w[i] == crate::fit::after_rounds(start[i], natural[i], i, r, k));
    assert(w[j] == crate::fit::after_rounds(start[j], natural[j], j, r, k));
}

proof fn lemma_eights(v: Seq<nat>)
    requires
        forall|q: int| 0 <= q < v.len() ==> #[trigger] v[q] == 8,
    ensures
        total(v) == 8 * v.len(),
    decreases v.len(),
{
    if v.len() > 0 {
        let t = v.drop_last();
        assert forall|q: int| 0 <= q < t.len() implies #[trigger] t[q] == 8 by {
            assert(t[q] == v[q]);
        }
        lemma_eights(t);
        assert(v[v.len() - 1] == 8);
    }
}

/// A narrowed row is as many rows as its tallest cell. Column by column: a space,
/// the cell's row, spaces up to the width, a space and a bar.
pub proof fn how_a_narrowed_row_is_drawn(
    wrapped: Seq<Seq<Seq<SpanView>>>,
    widths: Seq<nat>,
    style: Style,
    row: int,
    n: nat,
)
    requires
        n < widths.len(),
        n < wrapped.len(),
        0 <= row,
    ensures
        ({
            let content = if row < wrapped[n as int].len() {
                wrapped[n as int][row]
            } else {
                Seq::empty()
            };
            let used = spans_cells(content);
            let bar = seq![(SpanView { content: seq![' ', '│'], style })];
            let space = seq![(SpanView { content: seq![' '], style })];
            &&& used < widths[n as int] && used < usize::MAX ==> columns_at(
                wrapped,
                widths,
                style,
                row,
                n + 1,
            ) == columns_at(wrapped, widths, style, row, n) + space + content + seq![
                raw(times((widths[n as int] - used) as nat, ' ')),
            ] + bar
            &&& used == widths[n as int] && used < usize::MAX ==> columns_at(
                wrapped,
                widths,
                style,
                row,
                n + 1,
            ) == columns_at(wrapped, widths, style, row, n) + space + content + bar
        }),
{
    let content = crate::fit::cell_at(wrapped, n as int, row);
    let used = spans_cells(content);
    if used < widths[n as int] {
        let gap = (widths[n as int] - used) as nat;
        assert(crate::text::repeat(' ', gap) =~= times(gap, ' '));
    } else {
        let before = columns_at(wrapped, widths, style, row, n);
        let a = before + seq![(SpanView { content: seq![' '], style })] + content;
        assert(a + Seq::<SpanView>::empty() =~= a);
    }
}

proof fn lemma_tallest(wrapped: Seq<Seq<Seq<SpanView>>>, n: nat, k: int)
    requires
        0 <= k < n <= wrapped.len(),
    ensures
        wrapped[k].len() <= tallest(wrapped, n),
        exists|j: int| 0 <= j < n && (#[trigger] wrapped[j]).len() == tallest(wrapped, n) || tallest(
            wrapped,
            n,
        ) == 0,
    decreases n,
{
    if n > 1 {
        lemma_tallest(wrapped, (n - 1) as nat, if k < n - 1 {
            k
        } else {
            0
        });
        if wrapped[n - 1].len() > tallest(wrapped, (n - 1) as nat) {
            assert(wrapped[n - 1].len() == tallest(wrapped, n));
        } else if tallest(wrapped, n) > 0 {
            let j = choose|j: int|
                0 <= j < n - 1 && (#[trigger] wrapped[j]).len() == tallest(
                    wrapped,
                    (n - 1) as nat,
                );
            assert(wrapped[j].len() == tallest(wrapped, n));
        }
    } else {
        assert(tallest(wrapped, 0) == 0);
        assert(wrapped[0].len() == tallest(wrapped, n));
    }
}

/// Every row of a wrapped cell shows, and the first of the rows alone has the mark.
pub proof fn a_narrowed_row_shows_every_cell(
    mark: SpanView,
    mark_cells: nat,
    cells: Seq<Seq<SpanView>>,
    widths: Seq<nat>,
    style: Style,
    k: int,
    row: int,
)
    requires
        cells.len() == widths.len(),
        0 <= k < cells.len(),
        0 <= row < narrow_row(Some(mark), mark_cells, cells, widths, style).len(),
        mark_cells > 0,
    ensures
        ({
            let rows = narrow_row(Some(mark), mark_cells, cells, widths, style);
            let wrapped = wrapped_cells(cells, widths);
            let body = seq![(SpanView { content: seq!['│'], style })] + columns_at(
                wrapped,
                widths,
                style,
                row,
                widths.len(),
            );
            &&& wrap(cells[k], widths[k]).len() <= rows.len()
            &&& row == 0 ==> rows[row].spans == seq![mark] + body
            &&& row > 0 ==> rows[row].spans == seq![raw(times(mark_cells, ' '))] + body
        }),
{
    let wrapped = wrapped_cells(cells, widths);
    lemma_tallest(wrapped, wrapped.len(), k);
    assert(crate::text::repeat(' ', mark_cells) =~= times(mark_cells, ' '));
    let rows = narrow_row(Some(mark), mark_cells, cells, widths, style);
    let bar = seq![(SpanView { content: seq!['│'], style })];
    let body = bar + columns_at(wrapped, widths, style, row, widths.len());
    let first = lead(Some(mark), mark_cells, row);
    assert(rows[row] == physical_row(Some(mark), mark_cells, wrapped, widths, style, row));
    assert(rows[row].spans =~= first + body);
}

// ---- dividers ---------------------------------------------------------------
/// A divider says how long the turn took and how many lines it changed, with the
/// added and the removed ones where there are any.
pub proof fn what_a_divider_says(duration: Seq<char>, added: nat, removed: nat, p: Palette)
    requires
        added + removed <= usize::MAX,
    ensures
        ({
            let s = divider(duration, added, removed, p).spans;
            let n = added + removed;
            &&& s[0].content == "──────── "@
            &&& s.last().content == " ────────"@
            &&& n == 0 ==> s.len() == 3 && s[1].content == "worked for "@ + duration
                + " · 0 lines changed"@
            &&& n == 1 ==> s.len() == 7 && s[1].content == "worked for "@ + duration + " · "@
                + decimal(1) + " line changed ("@
            &&& n > 1 ==> s.len() == 7 && s[1].content == "worked for "@ + duration + " · "@
                + decimal(n) + " lines changed ("@
            &&& n > 0 ==> s[2].content == seq!['+'] + decimal(added) && s[4].content == seq!['-']
                + decimal(removed)
            &&& n > 0 && !p.no_color ==> s[2].style.fg == Paint::Solid(Color::Green)
                && s[4].style.fg == Paint::Solid(Color::Red)
        }),
{
}

/// A divider reaches over the whole width: its label behind one cell of rule, and
/// rule behind it up to the end. A narrow one is cut.
pub proof fn a_divider_reaches_over_the_width(l: LineView, width: nat)
    requires
        l.spans.len() >= 3,
        spans_cells(l.spans.subrange(1, l.spans.len() - 1)) <= usize::MAX,
    ensures
        ({
            let label = l.spans.subrange(1, l.spans.len() - 1);
            let n = spans_cells(label);
            let s = stretched(l, width).spans;
            &&& width >= n + 3 ==> {
                &&& s.len() == label.len() + 2
                &&& s[0].content == seq!['─', ' ']
                &&& s.subrange(1, s.len() - 1) == label
                &&& s.last().content == seq![' '] + times((width - n - 3) as nat, '─')
            }
            &&& width == n + 2 ==> s == seq![
                (SpanView { content: seq!['─', ' '], style: l.spans[0].style }),
            ] + label
            &&& width == n + 1 ==> s == label.push(
                SpanView { content: seq!['─'], style: l.spans.last().style },
            )
            &&& width <= n ==> s == clipped(label, width)
        }),
{
    let label = l.spans.subrange(1, l.spans.len() - 1);
    let n = spans_cells(label);
    let s = stretched(l, width).spans;
    if width >= n + 3 {
        assert(crate::text::repeat('─', (width - n - 3) as nat) =~= times(
            (width - n - 3) as nat,
            '─',
        ));
        assert(s.subrange(1, s.len() - 1) =~= label);
    }
}

/// What is cut is the first characters of what was there.
pub proof fn what_is_cut_is_the_start(s: Seq<SpanView>, n: nat)
    ensures
        told(clipped(s, n)) == (if told(s).len() <= n {
            told(s)
        } else {
            told(s).take(n as int)
        }),
    decreases s.len(),
{
    if s.len() == 0 {
        assert(told(s) =~= Seq::<char>::empty());
    } else if n == 0 {
        assert(told(clipped(s, n)) =~= Seq::<char>::empty());
        assert(told(s).take(0) =~= Seq::<char>::empty());
        if told(s).len() == 0 {
            assert(told(s) =~= Seq::<char>::empty());
        }
    } else {
        let c = s[0].content;
        let take = if c.len() < n {
            c.len()
        } else {
            n
        };
        lemma_told_first(s);
        let out = clipped(s, n);
        lemma_told_first(out);
        let rest = clipped(s.skip(1), (n - take) as nat);
        assert(out.skip(1) =~= rest);
        what_is_cut_is_the_start(s.skip(1), (n - take) as nat);
        let all = told(s);
        let tail = told(s.skip(1));
        if all.len() <= n {
            assert(c.take(take as int) =~= c);
        } else {
            if take == n {
                assert(told(rest) =~= Seq::<char>::empty());
                assert(c.take(n as int) + told(rest) =~= all.take(n as int));
            } else {
                assert(c.take(take as int) =~= c);
                assert(c + tail.take(n - take) =~= all.take(n as int));
            }
        }
    }
}

} // verus!
