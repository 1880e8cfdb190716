//! What a frame of the screen holds: which lines, how far they are scrolled, and
//! what a click in them means.
use crate::chrome::{composer_height, composer_scroll_of, inside, raw_lines, welcome_placed};
use crate::fit::{line_texts, wrapped_rows};
use crate::screen::{
    block_at,
    frame,
    laid_out,
    physical_rows,
    rows_above,
    scroll_off,
    target,
    targets,
    Area,
};
use crate::styled::{raw, LineView, SpanView};
use crate::text::{decimal, lines};
use crate::theme::Palette;
use crate::view::{live_lines, Hitbox, ViewModel};
use vstd::prelude::*;
use vstd::string::*;

verus! {

// ---- the transcript ---------------------------------------------------------
/// A frame shows the lines from the topmost one on, as many as there are rows, and
/// no more than there are lines.
pub proof fn which_lines_a_frame_shows(
    n: ViewModel,
    area: Area,
    live: Seq<LineView>,
    thinking: LineView,
)
    requires
        n.current_text.len() == 0,
        n.current_reasoning.len() == 0,
        n.transcript.len() + live.len() <= usize::MAX,
        0 <= n.scroll_top,
    ensures
        ({
            let f = frame(n, area, live, thinking);
            let total = n.transcript.len() + live.len();
            let h = area.height as int;
            &&& total <= h ==> f.rows == n.rows_between(0, total as int, live, thinking, area.width)
            &&& total > h && n.follow ==> f.rows == n.rows_between(
                total - h,
                total as int,
                live,
                thinking,
                area.width,
            )
            &&& total > h && !n.follow && n.scroll_top <= total - h ==> f.rows == n.rows_between(
                n.scroll_top,
                n.scroll_top + h,
                live,
                thinking,
                area.width,
            )
        }),
{
}

/// A frame that follows the end is scrolled by what does not fit; one that is held
/// is not scrolled.
pub proof fn how_far_a_frame_is_scrolled(rows: Seq<LineView>, area: Area)
    ensures
        scroll_off(rows, area, false) == 0,
        ({
            let n = wrapped_rows(line_texts(rows), area.width);
            &&& n <= area.height ==> scroll_off(rows, area, true) == 0
            &&& area.height < n <= area.height + u16::MAX ==> scroll_off(rows, area, true) == n
                - area.height
        }),
{
}

/// A click in a row means its block: just the cells of the row that are in view, as
/// wide as its label.
pub proof fn where_a_row_can_be_clicked(
    block: usize,
    top: int,
    count: int,
    label: nat,
    area: Area,
    scroll: int,
    column: u16,
    row: u16,
)
    requires
        0 <= top,
        0 < count,
        0 <= scroll,
        top + count <= usize::MAX,
        scroll + area.height <= usize::MAX,
        area.x + area.width <= u16::MAX,
        area.y + area.height <= u16::MAX,
        0 < label <= area.width,
    ensures
        ({
            let t = target(block as int, top, count, label, area, scroll);
            let there = top <= scroll + (row - area.y) < top + count && area.y <= row < area.y
                + area.height;
            &&& t is Some ==> t->0.block_index == block
            &&& t is Some && area.x <= column < area.x + label ==> (t->0.covers(column, row)
                <==> there)
            &&& t is Some && !(area.x <= column < area.x + label) ==> !t->0.covers(column, row)
            &&& t is None ==> !there
        }),
{
}

/// The first block that stands in a line is meant.
pub proof fn the_first_block_of_a_line(indices: Seq<int>, i: int, from: int, k: int)
    requires
        0 <= from <= k < indices.len(),
        indices[k] == i,
        forall|j: int| from <= j < k ==> #[trigger] indices[j] != i,
    ensures
        block_at(indices, i, from) == Some(k),
    decreases k - from,
{
    if from < k {
        assert(indices[from] != i);
        the_first_block_of_a_line(indices, i, from + 1, k);
    }
}

/// A row that shows the row of a block can be clicked for it, as far as it is in
/// view, and no other row can.
pub proof fn clicks_mean_the_blocks_that_show(
    indices: Seq<int>,
    transcript: int,
    rows: Seq<LineView>,
    sources: Seq<int>,
    area: Area,
    scroll: int,
    n: int,
    r: int,
    h: Hitbox,
)
    requires
        0 <= r < n,
    ensures
        ({
            let all = targets(indices, transcript, rows, sources, area, scroll, n);
            let b = block_at(indices, sources[r], 0);
            let here = if sources[r] < transcript && b is Some {
                target(
                    b->0,
                    rows_above(rows, area.width, r),
                    physical_rows(rows[r], area.width),
                    crate::fit::line_cells(rows[r]),
                    area,
                    scroll,
                )
            } else {
                None
            };
            here is Some ==> all.contains(here->0)
        }),
        targets(indices, transcript, rows, sources, area, scroll, n).contains(h) ==> exists|q: int|
            0 <= q < n && sources[q] < transcript && (#[trigger] block_at(indices, sources[q], 0))
                is Some && target(
                block_at(indices, sources[q], 0)->0,
                rows_above(rows, area.width, q),
                physical_rows(rows[q], area.width),
                crate::fit::line_cells(rows[q]),
                area,
                scroll,
            ) == Some(h),
    decreases n,
{
    let all = targets(indices, transcript, rows, sources, area, scroll, n);
    let before = targets(indices, transcript, rows, sources, area, scroll, n - 1);
    if r < n - 1 {
        clicks_mean_the_blocks_that_show(
            indices,
            transcript,
            rows,
            sources,
            area,
            scroll,
            n - 1,
            r,
            h,
        );
    } else {
        if n > 1 {
            clicks_mean_the_blocks_that_show(
                indices,
                transcript,
                rows,
                sources,
                area,
                scroll,
                n - 1,
                0,
                h,
            );
        } else {
            assert(before.len() == 0);
        }
    }
    assert forall|x: Hitbox| before.contains(x) implies all.contains(x) by {
        let k = choose|k: int| 0 <= k < before.len() && before[k] == x;
        assert(all[k] == x);
    }
    if all.len() > before.len() {
        assert(all[all.len() - 1] == all.last());
    }
    if all.contains(h) && !before.contains(h) {
        let k = choose|k: int| 0 <= k < all.len() && all[k] == h;
        if k < before.len() {
            assert(before[k] == h);
        }
        assert(block_at(indices, sources[n - 1], 0) is Some);
    }
}

/// The rows above a row are those of the lines before it, one at least for each.
pub proof fn rows_add_up(rows: Seq<LineView>, w: u16, n: int)
    requires
        0 <= n < rows.len(),
        rows_above(rows, w, n) + physical_rows(rows[n], w) <= usize::MAX,
        rows_above(rows, w, n) >= 0,
    ensures
        rows_above(rows, w, 0) == 0,
        rows_above(rows, w, n + 1) == rows_above(rows, w, n) + physical_rows(rows[n], w),
        physical_rows(rows[n], w) >= 1,
        wrapped_rows(line_texts(seq![rows[n]]), w) >= 1 ==> physical_rows(rows[n], w)
            == wrapped_rows(line_texts(seq![rows[n]]), w),
{
}

/// What streams is laid out anew where something came in, and kept else.
pub proof fn what_streams_is_laid_out_anew(m: ViewModel, p: Palette)
    ensures
        m.current_dirty && m.streaming() ==> m.refreshed(p) == (ViewModel {
            current_parsed: live_lines(
                m.current_reasoning,
                m.current_text,
                m.reasoning_elapsed,
                p,
            ),
            current_dirty: false,
            ..m
        }),
        m.current_dirty && !m.streaming() ==> m.refreshed(p).current_parsed.len() == 0,
        !m.current_dirty && m.current_parsed.len() > 0 ==> m.refreshed(p) == m,
{
}

/// Drawing changes nothing of what was said; before anything was, there is nothing
/// to show.
pub proof fn drawing_changes_nothing_that_was_said(
    m: ViewModel,
    area: Area,
    live: Seq<LineView>,
    thinking: LineView,
    p: Palette,
)
    ensures
        ({
            let r = laid_out(m, area, live, thinking, p);
            &&& r.0.transcript == m.transcript
            &&& r.0.composer == m.composer
            &&& r.0.follow == m.follow
            &&& r.0.scroll_top == m.scroll_top
            &&& r.0.area_height == area.height
            &&& m.transcript.len() == 0 && m.current_text.len() == 0 && m.current_reasoning.len()
                == 0 && !m.busy && m.pending_ask is None ==> r.1.len() == 0 && r.2 == 0
        }),
{
}

// ---- the bottom -------------------------------------------------------------
/// Thinking is timed from when it began, else from the start of the turn.
pub proof fn since_when_it_thinks(m: ViewModel)
    ensures
        m.reasoning_started is Some ==> m.thinking_since() == m.reasoning_started,
        m.reasoning_started is None ==> m.thinking_since() == m.turn_started,
{
}

/// A held view says how many lines are below it, and where it is at the top; one
/// that follows says nothing.
pub proof fn what_a_held_view_says(m: ViewModel)
    requires
        m.current_text.len() == 0,
        m.current_reasoning.len() == 0,
        !m.busy,
        m.transcript.len() <= usize::MAX,
        0 < m.area_height,
        0 <= m.scroll_top,
    ensures
        m.follow ==> m.position_label().len() == 0,
        !m.follow && (m.scroll_top == 0 || m.transcript.len() <= m.area_height)
            ==> m.position_label() == "↑ top"@,
        !m.follow && 0 < m.scroll_top <= m.transcript.len() - m.area_height ==> m.position_label()
            == "↑ "@ + decimal(
            (m.transcript.len() - m.scroll_top - m.area_height) as nat,
        ) + " below"@,
{
}

/// While the session works there is one line more below.
pub proof fn a_line_more_while_it_works(m: ViewModel)
    requires
        m.current_text.len() == 0,
        m.current_reasoning.len() == 0,
        m.busy,
        m.transcript.len() < usize::MAX,
        0 < m.area_height,
        0 < m.scroll_top <= m.transcript.len() + 1 - m.area_height,
        !m.follow,
    ensures
        m.position_label() == "↑ "@ + decimal(
            (m.transcript.len() + 1 - m.scroll_top - m.area_height) as nat,
        ) + " below"@,
        m.all_lines() == m.transcript.len() + 1,
        m.shown_top() == m.scroll_top,
{
}

/// A held view says where it is in place of a hint.
pub proof fn a_held_view_says_where_it_is(m: ViewModel, now: u64, p: Palette)
    requires
        m.copy_notice is None,
        m.position_label().len() > 0,
    ensures
        m.hint(now, p) == seq![(SpanView { content: m.position_label(), style: p.body() })],
{
}

/// The composer is as high as its text with the sign and the caret.
pub proof fn how_high_the_composer_is(t: Seq<char>, width: u16)
    ensures
        composer_height(t, 0) == 1,
        width > 0 ==> composer_height(t, width) == wrapped_rows(
            line_texts(raw_lines("> "@ + t + "█"@)),
            width,
        ),
        forall|k: int|
            0 <= k < lines(t).len() ==> (#[trigger] raw_lines(t)[k]).spans == seq![raw(lines(t)[k])],
        raw_lines(t).len() == lines(t).len(),
{
}

/// The composer shows its last rows: what does not fit between its borders is
/// scrolled off.
pub proof fn how_far_the_composer_is_scrolled(l: LineView, area: Area)
    requires
        area.width > 3,
        area.height > 3,
    ensures
        inside(area.width) == area.width - 2,
        inside(area.height) == area.height - 2,
        ({
            let n = wrapped_rows(line_texts(seq![l]), (area.width - 2) as u16);
            &&& n + 2 <= area.height ==> composer_scroll_of(l, area) == 0
            &&& area.height < n + 2 <= area.height + u16::MAX ==> composer_scroll_of(l, area) == n + 2
                - area.height
        }),
{
}

// ---- the welcome card -------------------------------------------------------
/// Without the mark the text takes the whole width; beside it, what the mark
/// leaves, at its foot.
pub proof fn where_the_welcome_card_stands(lines: Seq<LineView>, area: Area, w: u16, h: u16)
    requires
        w < area.width,
        area.x + area.width <= u16::MAX,
        area.y + area.height <= u16::MAX,
    ensures
        ({
            let n = wrapped_rows(line_texts(lines), area.width);
            let r = welcome_placed(lines, area, None);
            &&& r.mark is None
            &&& r.text.x == area.x && r.text.y == area.y && r.text.width == area.width
            &&& n <= area.height ==> r.text.height == n
            &&& n > area.height ==> r.text.height == area.height
        }),
        ({
            let n = wrapped_rows(line_texts(lines), (area.width - w) as u16);
            let r = welcome_placed(lines, area, Some((w, h)));
            &&& n <= h <= area.height ==> {
                &&& r.mark == Some(Area { x: area.x, y: area.y, width: w, height: h })
                &&& r.text.x == area.x + w
                &&& r.text.width == area.width - w
                &&& r.text.height == n
                &&& r.text.y + r.text.height == area.y + h
            }
        }),
{
}

} // verus!
